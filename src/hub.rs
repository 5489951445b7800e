//! The worker's bookkeeping: the tree store, the registry of live
//! connections, and each connection's outbound queue.
use vstd::prelude::*;
use crate::store::{AccessTree, TreeStore};

verus! {

/// One outbound transport, a client connection or a one-shot transfer: the
/// payloads still to be written to it, oldest first, and how many bytes of
/// the oldest one are already written.
pub struct Session {
    id: u64,
    queue: Vec<Vec<u8>>,
    cursor: usize,
    /// Every payload ever queued for this connection, in order.
    stream: Ghost<Seq<Seq<u8>>>,
    /// How many payloads of `stream` have been written in full.
    done: Ghost<nat>,
    /// How many tree updates had been applied when the connection came.
    joined: Ghost<nat>,
    /// Whether the connection takes every later state of the tree, or only
    /// the one payload it was opened with.
    subscribed: bool,
}

/// Why a connection was not taken.
#[derive(PartialEq, Eq, Structural, Clone, Copy, Debug)]
pub enum AcceptError {
    /// The hub has shut down.
    Closed,
    /// A live connection already has this identifier.
    DuplicateId,
    /// The tree could not be built, so there is no snapshot to send.
    TreeUnavailable,
}

/// A message from the application to the worker; the worker takes them in
/// the order they were sent.
pub enum Command<U> {
    /// Apply an update to the tree and send the new state to every client.
    UpdateTree(U),
    /// Open a one-shot transfer of the given bytes under the given
    /// identifier.
    DeliverBytes(u64, Vec<u8>),
    /// Stop: drop every connection and take nothing more.
    Shutdown,
}

/// The state that the worker owns.
pub struct Hub<T, U, F> {
    store: TreeStore<T, U, F>,
    sessions: Vec<Session>,
    open: bool,
    /// Every update applied to the tree, in order.
    updates: Ghost<Seq<U>>,
    /// The payload sent out after each update, in the same order.
    payloads: Ghost<Seq<Seq<u8>>>,
}

/// The position of `id` in `ids`, where it occurs.
pub open spec fn position(ids: Seq<u64>, id: u64) -> int {
    choose|i: int| 0 <= i < ids.len() && ids[i] == id
}

/// Where an identifier occurs once, `position` finds that occurrence.
pub proof fn lemma_position_unique(ids: Seq<u64>, i: int)
    requires
        0 <= i < ids.len(),
        forall|a: int, b: int|
            0 <= a < ids.len() && 0 <= b < ids.len() && #[trigger] ids[a] == #[trigger] ids[b]
                ==> a == b,
    ensures
        ids.contains(ids[i]),
        position(ids, ids[i]) == i,
{
    assert(ids.contains(ids[i]));
    let j = position(ids, ids[i]);
    assert(ids[j] == ids[i]);
}

pub open spec fn views(q: Seq<Vec<u8>>) -> Seq<Seq<u8>> {
    q.map_values(|v: Vec<u8>| v@)
}

impl Session {
    pub closed spec fn wf(&self) -> bool {
        &&& self.done@ <= self.stream@.len()
        &&& views(self.queue@) == self.stream@.subrange(self.done@ as int, self.stream@.len() as int)
        &&& (self.queue@.len() == 0 ==> self.cursor == 0)
        &&& (self.queue@.len() > 0 ==> self.cursor <= self.queue@[0]@.len())
    }

    fn enqueue(&mut self, payload: Vec<u8>)
        requires
            old(self).wf(),
        ensures
            final(self).wf(),
            final(self).id == old(self).id,
            final(self).stream@ == old(self).stream@.push(payload@),
            final(self).done@ == old(self).done@,
            final(self).joined@ == old(self).joined@,
            final(self).cursor == old(self).cursor,
            final(self).subscribed == old(self).subscribed,
            views(final(self).queue@) == views(old(self).queue@).push(payload@),
    {
        let ghost old_q = self.queue@;
        self.queue.push(payload);
        self.stream = Ghost(self.stream@.push(payload@));
        proof {
            assert(views(self.queue@) =~= views(old_q).push(payload@));
            assert(self.stream@.subrange(self.done@ as int, self.stream@.len() as int) =~= old(
                self,
            ).stream@.subrange(self.done@ as int, old(self).stream@.len() as int).push(payload@));
        }
    }

    /// Records that `n` more bytes were written; a payload written in full
    /// leaves the queue.
    fn advance(&mut self, n: usize)
        requires
            old(self).wf(),
            old(self).queue@.len() > 0,
        ensures
            final(self).wf(),
            final(self).id == old(self).id,
            final(self).stream@ == old(self).stream@,
            final(self).joined@ == old(self).joined@,
            final(self).subscribed == old(self).subscribed,
            ({
                let head = old(self).queue@[0]@.len();
                if old(self).cursor + n >= head {
                    &&& final(self).done@ == old(self).done@ + 1
                    &&& final(self).cursor == 0
                    &&& views(final(self).queue@) == views(old(self).queue@).drop_first()
                } else {
                    &&& final(self).done@ == old(self).done@
                    &&& final(self).cursor == old(self).cursor + n
                    &&& views(final(self).queue@) == views(old(self).queue@)
                }
            }),
    {
        let head = self.queue[0].len();
        if n >= head - self.cursor {
            let ghost old_q = self.queue@;
            self.queue.remove(0);
            self.cursor = 0;
            self.done = Ghost(self.done@ + 1);
            proof {
                assert(views(self.queue@) =~= views(old_q).drop_first());
                assert(self.stream@.subrange(self.done@ as int, self.stream@.len() as int)
                    =~= old(self).stream@.subrange(old(self).done@ as int, self.stream@.len() as int).drop_first());
            }
        } else {
            self.cursor = self.cursor + n;
        }
    }
}

impl<T: AccessTree<U>, U, F: FnOnce() -> Option<T>> Hub<T, U, F> {
    /// The identifiers of the live connections, in order of arrival.
    pub closed spec fn ids(&self) -> Seq<u64> {
        Seq::new(self.sessions@.len(), |i: int| self.sessions@[i].id)
    }

    pub open spec fn registered(&self, id: u64) -> bool {
        self.ids().contains(id)
    }

    pub open spec fn count(&self) -> nat {
        self.ids().len()
    }

    pub closed spec fn session(&self, id: u64) -> Session {
        self.sessions@[position(self.ids(), id)]
    }

    /// Every payload queued so far for connection `id`, in order: the
    /// snapshot it got on arrival, then what came after.
    pub closed spec fn stream(&self, id: u64) -> Seq<Seq<u8>> {
        self.session(id).stream@
    }

    /// How many payloads of `stream(id)` have been written in full.
    pub closed spec fn sent(&self, id: u64) -> nat {
        self.session(id).done@
    }

    /// The payloads not yet written in full to connection `id`.
    pub closed spec fn pending(&self, id: u64) -> Seq<Seq<u8>> {
        views(self.session(id).queue@)
    }

    /// How many bytes of the first pending payload are written.
    pub closed spec fn cursor(&self, id: u64) -> nat {
        self.session(id).cursor as nat
    }

    /// How many updates had been applied when connection `id` arrived.
    pub closed spec fn joined(&self, id: u64) -> nat {
        self.session(id).joined@
    }

    /// Every update applied to the tree, in order.
    pub closed spec fn updates(&self) -> Seq<U> {
        self.updates@
    }

    /// The payload sent out after each update, in order.
    pub closed spec fn payloads(&self) -> Seq<Seq<u8>> {
        self.payloads@
    }

    pub closed spec fn is_open(&self) -> bool {
        self.open
    }

    /// The updates that the tree has taken, as the store records them.
    pub closed spec fn tree_history(&self) -> Seq<U> {
        self.store.history()
    }

    pub closed spec fn tree_built(&self) -> bool {
        self.store.is_ready()
    }

    /// The tree factory has not run yet.
    pub closed spec fn tree_pending(&self) -> bool {
        self.store.is_pending()
    }

    /// The factory that will build the tree, while it has not run.
    pub closed spec fn factory(&self) -> F {
        self.store.factory()
    }

    /// The tree, once built.
    pub closed spec fn tree(&self) -> T {
        self.store.tree()
    }

    /// If `before` had not built its tree yet, `self` has one exactly when
    /// the factory returned one, and it is the tree the factory returned.
    pub open spec fn built_from_factory(&self, before: &Self) -> bool {
        before.tree_pending() ==> exists|t: Option<T>|
            #![trigger call_ensures(before.factory(), (), t)]
            call_ensures(before.factory(), (), t) && self.tree_built() == (t is Some) && (t is Some
                ==> self.tree() == t->0)
    }

    /// If `before` had not built its tree yet, `self` has one exactly when
    /// the factory returned one.
    pub open spec fn built_as_factory_said(&self, before: &Self) -> bool {
        before.tree_pending() ==> exists|t: Option<T>|
            #![trigger call_ensures(before.factory(), (), t)]
            call_ensures(before.factory(), (), t) && self.tree_built() == (t is Some)
    }

    /// The tree store is as it was in `before`.
    pub open spec fn tree_kept(&self, before: &Self) -> bool {
        &&& self.tree_pending() == before.tree_pending()
        &&& self.tree_built() == before.tree_built()
        &&& self.tree() == before.tree()
        &&& self.factory() == before.factory()
        &&& self.tree_history() == before.tree_history()
    }

    /// A connection is well formed and has been queued exactly its first
    /// payload and, if subscribed, the payload of every update since.
    pub closed spec fn fits(&self, s: Session) -> bool {
        &&& s.wf()
        &&& s.joined@ <= self.updates@.len()
        &&& s.stream@.len() >= 1
        &&& (s.subscribed ==> s.stream@.drop_first() == self.payloads@.subrange(
            s.joined@ as int,
            self.payloads@.len() as int,
        ))
        &&& (!s.subscribed ==> s.stream@.len() == 1)
    }

    pub closed spec fn wf(&self) -> bool {
        &&& self.store.wf()
        &&& forall|i: int, j: int|
            0 <= i < self.sessions@.len() && 0 <= j < self.sessions@.len()
                && #[trigger] self.sessions@[i].id == #[trigger] self.sessions@[j].id ==> i == j
        &&& forall|i: int| 0 <= i < self.sessions@.len() ==> self.fits(#[trigger] self.sessions@[i])
        &&& self.payloads@.len() == self.updates@.len()
        &&& self.store.history() == self.updates@
        &&& (!self.open ==> self.sessions@.len() == 0)
    }

    /// Whether connection `id` takes every later state of the tree.
    pub closed spec fn subscribed(&self, id: u64) -> bool {
        self.session(id).subscribed
    }

    /// Connection `id` is in the same state in `self` as in `other`.
    pub open spec fn same_session(&self, other: &Self, id: u64) -> bool {
        &&& self.subscribed(id) == other.subscribed(id)
        &&& self.stream(id) == other.stream(id)
        &&& self.sent(id) == other.sent(id)
        &&& self.pending(id) == other.pending(id)
        &&& self.cursor(id) == other.cursor(id)
        &&& self.joined(id) == other.joined(id)
    }

    /// `self` is `before` after `update` was applied to the tree and the
    /// tree's new state was queued, once, behind what every subscribed
    /// connection already had pending; other connections are untouched.
    pub open spec fn fanned_out(&self, before: &Self, update: U) -> bool {
        &&& self.updates() == before.updates().push(update)
        &&& self.tree_built()
        &&& self.payloads().len() == before.payloads().len() + 1
        &&& self.payloads().last() == self.tree().encoded()
        &&& self.payloads().drop_last() == before.payloads()
        &&& forall|id: u64|
            before.registered(id) && !before.subscribed(id) ==> self.same_session(before, id)
        &&& forall|id: u64|
            #![trigger self.stream(id)]
            #![trigger self.pending(id)]
            #![trigger self.sent(id)]
            before.registered(id) && before.subscribed(id) ==> {
                &&& self.subscribed(id)
                &&& self.stream(id) == before.stream(id).push(self.payloads().last())
                &&& self.pending(id) == before.pending(id).push(self.payloads().last())
                &&& self.sent(id) == before.sent(id)
                &&& self.cursor(id) == before.cursor(id)
                &&& self.joined(id) == before.joined(id)
            }
    }

    /// No update was taken and no connection changed.
    pub open spec fn kept(&self, before: &Self) -> bool {
        &&& self.updates() == before.updates()
        &&& self.payloads() == before.payloads()
        &&& forall|id: u64| before.registered(id) ==> self.same_session(before, id)
    }

    proof fn lemma_position(&self, i: int)
        requires
            self.wf(),
            0 <= i < self.sessions@.len(),
        ensures
            self.ids()[i] == self.sessions@[i].id,
            self.registered(self.sessions@[i].id),
            position(self.ids(), self.sessions@[i].id) == i,
            self.session(self.sessions@[i].id) == self.sessions@[i],
    {
        let ids = self.ids();
        assert forall|a: int, b: int|
            0 <= a < ids.len() && 0 <= b < ids.len() && #[trigger] ids[a] == #[trigger] ids[b]
                implies a == b by {
            assert(self.sessions@[a].id == self.sessions@[b].id);
        }
        lemma_position_unique(ids, i);
    }

    proof fn lemma_registered(&self, id: u64)
        requires
            self.wf(),
            self.registered(id),
        ensures
            0 <= position(self.ids(), id) < self.sessions@.len(),
            self.sessions@[position(self.ids(), id)].id == id,
            self.session(id).wf(),
            self.fits(self.session(id)),
    {
        let ids = self.ids();
        let j = position(ids, id);
        assert(0 <= j < ids.len() && ids[j] == id);
        assert(self.fits(self.sessions@[j]));
    }

    /// A hub with no connection, whose tree `factory` builds on first need.
    pub fn new(factory: F) -> (r: Self)
        requires
            call_requires(factory, ()),
        ensures
            r.wf(),
            r.is_open(),
            r.count() == 0,
            !r.tree_built(),
            r.tree_pending(),
            r.factory() == factory,
            r.payloads() == Seq::<Seq<u8>>::empty(),
            r.updates() == Seq::<U>::empty(),
    {
        let r = Hub {
            store: TreeStore::new(factory),
            sessions: Vec::new(),
            open: true,
            updates: Ghost(Seq::empty()),
            payloads: Ghost(Seq::empty()),
        };
        assert(r.ids() =~= Seq::<u64>::empty());
        r
    }

    /// The number of live connections.
    pub fn active_count(&self) -> (r: usize)
        ensures
            r == self.count(),
    {
        self.sessions.len()
    }

    fn find(&self, id: u64) -> (r: Option<usize>)
        requires
            self.wf(),
        ensures
            r is Some <==> self.registered(id),
            r matches Some(i) ==> i < self.sessions@.len() && i == position(self.ids(), id)
                && self.sessions@[i as int].id == id,
    {
        let mut i: usize = 0;
        while i < self.sessions.len()
            invariant
                self.wf(),
                0 <= i <= self.sessions@.len(),
                forall|j: int| 0 <= j < i ==> self.sessions@[j].id != id,
            decreases self.sessions@.len() - i,
        {
            if self.sessions[i].id == id {
                proof {
                    self.lemma_position(i as int);
                }
                return Some(i);
            }
            i = i + 1;
        }
        proof {
            if self.registered(id) {
                let j = choose|j: int| 0 <= j < self.ids().len() && self.ids()[j] == id;
                assert(self.sessions@[j].id == id);
            }
        }
        None
    }

    /// Stops the hub: every connection is dropped and nothing more is taken.
    pub fn shutdown(&mut self)
        requires
            old(self).wf(),
        ensures
            final(self).wf(),
            !final(self).is_open(),
            final(self).count() == 0,
            final(self).updates() == old(self).updates(),
            final(self).tree_kept(old(self)),
    {
        self.sessions.clear();
        self.open = false;
        assert(self.ids() =~= Seq::<u64>::empty());
    }

    /// Takes a new connection under `id` and queues the current snapshot of
    /// the tree for it, building the tree first if needed.
    pub fn accept(&mut self, id: u64) -> (r: Result<(), AcceptError>)
        requires
            old(self).wf(),
        ensures
            final(self).wf(),
            final(self).is_open() == old(self).is_open(),
            final(self).updates() == old(self).updates(),
            final(self).payloads() == old(self).payloads(),
            old(self).tree_built() ==> final(self).tree_built(),
            !old(self).is_open() ==> r == Err::<(), AcceptError>(AcceptError::Closed),
            old(self).is_open() && old(self).registered(id) ==> r == Err::<(), AcceptError>(
                AcceptError::DuplicateId,
            ),
            !old(self).is_open() || old(self).registered(id) ==> final(self).tree_kept(old(self)),
            old(self).is_open() && !old(self).registered(id) ==> {
                &&& final(self).built_from_factory(old(self))
                &&& !final(self).tree_pending()
                &&& (!old(self).tree_pending() ==> final(self).tree() == old(self).tree())
                &&& (!old(self).tree_pending() ==> final(self).tree_built() == old(
                    self,
                ).tree_built())
                &&& (r is Ok <==> final(self).tree_built())
                &&& (r is Err ==> r == Err::<(), AcceptError>(AcceptError::TreeUnavailable))
            },
            r is Ok ==> {
                &&& final(self).ids() == old(self).ids().push(id)
                &&& final(self).registered(id)
                &&& final(self).stream(id) == seq![final(self).tree().encoded()]
                &&& final(self).pending(id) == final(self).stream(id)
                &&& final(self).sent(id) == 0
                &&& final(self).cursor(id) == 0
                &&& final(self).joined(id) == old(self).updates().len()
                &&& final(self).tree_history() == old(self).updates()
                &&& final(self).subscribed(id)
            },
            r is Err ==> final(self).ids() == old(self).ids() && final(self).kept(old(self)),
            forall|other: u64|
                other != id && old(self).registered(other) ==> final(self).same_session(
                    old(self),
                    other,
                ),
    {
        if !self.open {
            return Err(AcceptError::Closed);
        }
        if self.find(id).is_some() {
            return Err(AcceptError::DuplicateId);
        }
        let ghost prev = *self;
        let snapshot = self.store.snapshot();
        proof {
            if prev.tree_pending() {
                let t = choose|t: Option<T>|
                    call_ensures(prev.store.factory(), (), t) && self.store.is_ready() == (t is Some);
                assert(call_ensures(prev.factory(), (), t) && self.tree_built() == (t is Some));
            }
            assert(self.ids() =~= prev.ids());
            assert(self.sessions == prev.sessions);
            assert forall|other: u64| prev.registered(other) implies self.same_session(
                &prev,
                other,
            ) by {}
        }
        match snapshot {
            None => Err(AcceptError::TreeUnavailable),
            Some(payload) => {
                let ghost mid = *self;
                self.register(id, payload, true);
                assert forall|other: u64|
                    other != id && prev.registered(other) implies self.same_session(
                        &prev,
                        other,
                    ) by {
                    assert(mid.ids() == prev.ids());
                    assert(mid.registered(other));
                    assert(self.same_session(&mid, other));
                    assert(mid.same_session(&prev, other));
                }
                Ok(())
            },
        }
    }

    /// Opens a one-shot transfer under `id` that carries `payload` alone and
    /// takes no later state of the tree.
    pub fn deliver(&mut self, id: u64, payload: Vec<u8>) -> (r: Result<(), AcceptError>)
        requires
            old(self).wf(),
        ensures
            final(self).wf(),
            final(self).is_open() == old(self).is_open(),
            final(self).updates() == old(self).updates(),
            final(self).payloads() == old(self).payloads(),
            final(self).tree_kept(old(self)),
            !old(self).is_open() ==> r == Err::<(), AcceptError>(AcceptError::Closed),
            old(self).is_open() && old(self).registered(id) ==> r == Err::<(), AcceptError>(
                AcceptError::DuplicateId,
            ),
            old(self).is_open() && !old(self).registered(id) ==> r is Ok,
            r is Ok ==> {
                &&& final(self).ids() == old(self).ids().push(id)
                &&& final(self).registered(id)
                &&& final(self).stream(id) == seq![payload@]
                &&& final(self).pending(id) == final(self).stream(id)
                &&& final(self).sent(id) == 0
                &&& final(self).cursor(id) == 0
                &&& !final(self).subscribed(id)
            },
            r is Err ==> final(self).ids() == old(self).ids() && final(self).kept(old(self)),
            forall|other: u64|
                other != id && old(self).registered(other) ==> final(self).same_session(
                    old(self),
                    other,
                ),
    {
        if !self.open {
            return Err(AcceptError::Closed);
        }
        if self.find(id).is_some() {
            return Err(AcceptError::DuplicateId);
        }
        self.register(id, payload, false);
        Ok(())
    }

    fn register(&mut self, id: u64, payload: Vec<u8>, subscribed: bool)
        requires
            old(self).wf(),
            old(self).open,
            !old(self).registered(id),
        ensures
            final(self).wf(),
            final(self).open,
            final(self).store == old(self).store,
            final(self).updates == old(self).updates,
            final(self).payloads == old(self).payloads,
            final(self).ids() == old(self).ids().push(id),
            final(self).registered(id),
            final(self).stream(id) == seq![payload@],
            final(self).pending(id) == final(self).stream(id),
            final(self).sent(id) == 0,
            final(self).cursor(id) == 0,
            final(self).joined(id) == old(self).updates@.len(),
            final(self).subscribed(id) == subscribed,
            forall|other: u64|
                other != id && old(self).registered(other) ==> final(self).same_session(
                    old(self),
                    other,
                ),
    {
        let ghost prev = *self;
        let ghost p = payload@;
        let ghost first = seq![p];
        let mut queue: Vec<Vec<u8>> = Vec::new();
        queue.push(payload);
        let session = Session {
            id,
            queue,
            cursor: 0,
            stream: Ghost(first),
            done: Ghost(0),
            joined: Ghost(self.updates@.len()),
            subscribed,
        };
        assert(views(session.queue@) =~= seq![p]);
        assert(session.stream@.subrange(0, 1) =~= seq![p]);
        self.sessions.push(session);
        proof {
            let n = prev.sessions@.len();
            assert(self.ids() =~= prev.ids().push(id));
            assert(self.payloads@.subrange(
                self.updates@.len() as int,
                self.payloads@.len() as int,
            ) =~= Seq::<Seq<u8>>::empty());
            assert(seq![p].drop_first() =~= Seq::<Seq<u8>>::empty());
            assert(self.fits(session));
            assert forall|i: int| 0 <= i < self.sessions@.len() implies self.fits(
                #[trigger] self.sessions@[i],
            ) by {
                if i < n {
                    assert(prev.fits(prev.sessions@[i]));
                }
            }
            assert forall|i: int, j: int|
                0 <= i < self.sessions@.len() && 0 <= j < self.sessions@.len()
                    && #[trigger] self.sessions@[i].id == #[trigger] self.sessions@[j].id
                    implies i == j by {
                if i < n && j < n {
                    assert(prev.sessions@[i].id == prev.sessions@[j].id);
                } else if i < n {
                    prev.lemma_position(i);
                } else if j < n {
                    prev.lemma_position(j);
                }
            }
            self.lemma_position(n as int);
            assert forall|other: u64|
                other != id && prev.registered(other) implies self.same_session(&prev, other) by {
                prev.lemma_registered(other);
                let k = position(prev.ids(), other);
                prev.lemma_position(k);
                self.lemma_position(k);
            }
        }
    }
    /// Applies `update` to the tree, building the tree first if needed, and
    /// queues the tree's new state for every subscribed connection. Returns
    /// whether the update was taken; a closed hub takes none.
    pub fn update(&mut self, update: U) -> (r: bool)
        requires
            old(self).wf(),
        ensures
            final(self).wf(),
            final(self).is_open() == old(self).is_open(),
            final(self).ids() == old(self).ids(),
            !old(self).is_open() ==> !r,
            old(self).is_open() ==> r == final(self).tree_built(),
            old(self).is_open() ==> final(self).built_as_factory_said(old(self)),
            old(self).is_open() ==> !final(self).tree_pending(),
            !old(self).tree_pending() ==> final(self).tree_built() == old(self).tree_built(),
            !old(self).is_open() ==> final(self).tree_kept(old(self)),
            old(self).is_open() && old(self).tree_built() ==> r,
            old(self).tree_built() ==> final(self).tree_built(),
            r ==> final(self).fanned_out(old(self), update),
            !r ==> final(self).kept(old(self)),
    {
        if !self.open {
            return false;
        }
        let ghost prev = *self;
        let ghost u = update;
        let applied = self.store.apply(update);
        proof {
            if prev.tree_pending() {
                let t = choose|t: Option<T>|
                    call_ensures(prev.store.factory(), (), t) && self.store.is_ready() == (t is Some);
                assert(call_ensures(prev.factory(), (), t) && self.tree_built() == (t is Some));
            }
        }
        if !applied {
            assert(self.ids() =~= prev.ids());
            return false;
        }
        let payload = match self.store.snapshot() {
            Some(p) => p,
            None => {
                return false;
            },
        };
        let ghost p = payload@;
        let ghost st = self.store;
        self.updates = Ghost(self.updates@.push(u));
        self.payloads = Ghost(self.payloads@.push(p));
        let n = self.sessions.len();
        let mut i: usize = 0;
        while i < n
            invariant
                0 <= i <= n,
                payload@ == p,
                self.store == st,
                !st.is_pending(),
                p == st.tree().encoded(),
                n == prev.sessions@.len(),
                self.sessions@.len() == n,
                self.store.wf(),
                self.store.is_ready(),
                self.store.history() == self.updates@,
                self.open,
                self.updates@ == prev.updates@.push(u),
                self.payloads@ == prev.payloads@.push(p),
                forall|j: int|
                    0 <= j < i ==> {
                        let s = #[trigger] self.sessions@[j];
                        let t = prev.sessions@[j];
                        &&& t.subscribed ==> {
                            &&& s.wf()
                            &&& s.id == t.id
                            &&& s.subscribed
                            &&& s.stream@ == t.stream@.push(p)
                            &&& s.done@ == t.done@
                            &&& s.joined@ == t.joined@
                            &&& s.cursor == t.cursor
                            &&& views(s.queue@) == views(t.queue@).push(p)
                        }
                        &&& !t.subscribed ==> s == t
                    },
                forall|j: int| i <= j < n ==> #[trigger] self.sessions@[j] == prev.sessions@[j],
                prev.wf(),
            decreases n - i,
        {
            if self.sessions[i].subscribed {
                let copy = payload.clone();
                assert(copy@ =~= p);
                assert(prev.fits(prev.sessions@[i as int]));
                self.sessions[i].enqueue(copy);
            }
            i = i + 1;
        }
        proof {
            assert(self.ids() =~= prev.ids());
            assert forall|j: int| 0 <= j < n implies self.fits(#[trigger] self.sessions@[j]) by {
                let s = self.sessions@[j];
                let t = prev.sessions@[j];
                assert(prev.fits(t));
                if t.subscribed {
                    assert(s.stream@.drop_first() =~= t.stream@.drop_first().push(p));
                    assert(self.payloads@.subrange(t.joined@ as int, self.payloads@.len() as int)
                        =~= prev.payloads@.subrange(t.joined@ as int, prev.payloads@.len() as int).push(p));
                }
            }
            assert forall|j: int, k: int|
                0 <= j < n && 0 <= k < n && #[trigger] self.sessions@[j].id
                    == #[trigger] self.sessions@[k].id implies j == k by {
                assert(prev.sessions@[j].id == prev.sessions@[k].id);
            }
            assert(self.payloads@.drop_last() =~= prev.payloads@);
            assert forall|id: u64| prev.registered(id) && !prev.subscribed(id) implies self.same_session(&prev, id) by {
                prev.lemma_registered(id);
                let k = position(prev.ids(), id);
                prev.lemma_position(k);
                self.lemma_position(k);
            }
            assert forall|id: u64| prev.registered(id) && prev.subscribed(id) implies {
                &&& self.subscribed(id)
                &&& self.stream(id) == prev.stream(id).push(self.payloads@.last())
                &&& self.pending(id) == prev.pending(id).push(self.payloads@.last())
                &&& self.sent(id) == prev.sent(id)
                &&& self.cursor(id) == prev.cursor(id)
                &&& self.joined(id) == prev.joined(id)
            } by {
                prev.lemma_registered(id);
                let k = position(prev.ids(), id);
                prev.lemma_position(k);
                self.lemma_position(k);
            }
        }
        true
    }
    /// The oldest payload still to be written to connection `id`, with how
    /// many of its bytes are already written.
    pub fn next_write(&self, id: u64) -> (r: Option<(&Vec<u8>, usize)>)
        requires
            self.wf(),
        ensures
            r is Some <==> self.registered(id) && self.pending(id).len() > 0,
            r matches Some((b, c)) ==> b@ == self.pending(id)[0] && c == self.cursor(id) && c
                <= b@.len(),
    {
        match self.find(id) {
            None => None,
            Some(i) => {
                proof {
                    self.lemma_registered(id);
                }
                let s = &self.sessions[i];
                if s.queue.len() == 0 {
                    None
                } else {
                    Some((&s.queue[0], s.cursor))
                }
            },
        }
    }

    /// Whether `id` is a one-shot transfer that has been written in full,
    /// so that its transport can be closed.
    pub fn transfer_done(&self, id: u64) -> (r: bool)
        requires
            self.wf(),
        ensures
            r == (self.registered(id) && !self.subscribed(id) && self.pending(id).len() == 0),
    {
        match self.find(id) {
            None => false,
            Some(i) => {
                let s = &self.sessions[i];
                !s.subscribed && s.queue.len() == 0
            },
        }
    }

    /// Records that `n` more bytes of the oldest pending payload of
    /// connection `id` reached its transport. Returns whether there was such
    /// a payload.
    pub fn wrote(&mut self, id: u64, n: usize) -> (r: bool)
        requires
            old(self).wf(),
        ensures
            final(self).wf(),
            r == (old(self).registered(id) && old(self).pending(id).len() > 0),
            final(self).ids() == old(self).ids(),
            final(self).is_open() == old(self).is_open(),
            final(self).updates() == old(self).updates(),
            final(self).payloads() == old(self).payloads(),
            final(self).tree_kept(old(self)),
            final(self).stream(id) == old(self).stream(id),
            final(self).joined(id) == old(self).joined(id),
            r ==> if old(self).cursor(id) + n >= old(self).pending(id)[0].len() {
                &&& final(self).sent(id) == old(self).sent(id) + 1
                &&& final(self).cursor(id) == 0
                &&& final(self).pending(id) == old(self).pending(id).drop_first()
            } else {
                &&& final(self).sent(id) == old(self).sent(id)
                &&& final(self).cursor(id) == old(self).cursor(id) + n
                &&& final(self).pending(id) == old(self).pending(id)
            },
            !r ==> final(self).same_session(old(self), id),
            forall|other: u64|
                other != id && old(self).registered(other) ==> final(self).same_session(
                    old(self),
                    other,
                ),
    {
        let ghost prev = *self;
        match self.find(id) {
            None => {
                return false;
            },
            Some(i) => {
                proof {
                    self.lemma_registered(id);
                }
                if self.sessions[i].queue.len() == 0 {
                    return false;
                }
                self.sessions[i].advance(n);
                proof {
                    assert(self.ids() =~= prev.ids());
                    assert forall|j: int, k: int|
                        0 <= j < self.sessions@.len() && 0 <= k < self.sessions@.len()
                            && #[trigger] self.sessions@[j].id == #[trigger] self.sessions@[k].id
                            implies j == k by {
                        assert(prev.sessions@[j].id == prev.sessions@[k].id);
                    }
                    assert forall|j: int| 0 <= j < self.sessions@.len() implies self.fits(
                        #[trigger] self.sessions@[j],
                    ) by {
                        assert(prev.fits(prev.sessions@[j]));
                    }
                    assert forall|other: u64|
                        other != id && prev.registered(other) implies self.same_session(
                            &prev,
                            other,
                        ) by {
                        prev.lemma_registered(other);
                        let k = position(prev.ids(), other);
                        prev.lemma_position(k);
                        self.lemma_position(k);
                    }
                    self.lemma_position(i as int);
                }
                true
            },
        }
    }

    /// Drops connection `id`, as when its transport reports an end or an
    /// error. Returns whether it was live.
    pub fn disconnect(&mut self, id: u64) -> (r: bool)
        requires
            old(self).wf(),
        ensures
            final(self).wf(),
            r == old(self).registered(id),
            !final(self).registered(id),
            r ==> final(self).ids() == old(self).ids().remove(position(old(self).ids(), id)),
            !r ==> final(self).ids() == old(self).ids(),
            final(self).count() == if r { old(self).count() - 1 } else { old(self).count() as int },
            final(self).is_open() == old(self).is_open(),
            final(self).updates() == old(self).updates(),
            final(self).payloads() == old(self).payloads(),
            final(self).tree_kept(old(self)),
            forall|other: u64|
                other != id ==> (final(self).registered(other) == old(self).registered(other)),
            forall|other: u64|
                other != id && old(self).registered(other) ==> final(self).same_session(
                    old(self),
                    other,
                ),
    {
        let ghost prev = *self;
        match self.find(id) {
            None => false,
            Some(i) => {
                self.sessions.remove(i);
                proof {
                    let ids = prev.ids();
                    assert(self.ids() =~= ids.remove(i as int));
                    assert forall|j: int, k: int|
                        0 <= j < self.sessions@.len() && 0 <= k < self.sessions@.len()
                            && #[trigger] self.sessions@[j].id == #[trigger] self.sessions@[k].id
                            implies j == k by {
                        let j2 = if j < i { j } else { j + 1 };
                        let k2 = if k < i { k } else { k + 1 };
                        assert(prev.sessions@[j2].id == prev.sessions@[k2].id);
                    }
                    assert forall|j: int| 0 <= j < self.sessions@.len() implies self.fits(
                        #[trigger] self.sessions@[j],
                    ) by {
                        let j2 = if j < i { j } else { j + 1 };
                        assert(prev.fits(prev.sessions@[j2]));
                    }
                    if self.registered(id) {
                        let k = choose|k: int| 0 <= k < self.ids().len() && self.ids()[k] == id;
                        let k2 = if k < i { k } else { k + 1 };
                        prev.lemma_position(k2);
                        prev.lemma_position(i as int);
                    }
                    assert forall|other: u64| other != id implies (self.registered(other)
                        == prev.registered(other)) by {
                        if prev.registered(other) {
                            prev.lemma_registered(other);
                            let k = position(ids, other);
                            let k1 = if k < i { k } else { k - 1 };
                            assert(self.ids()[k1] == other);
                        }
                        if self.registered(other) {
                            let k = choose|k: int| 0 <= k < self.ids().len() && self.ids()[k] == other;
                            let k2 = if k < i { k } else { k + 1 };
                            assert(ids[k2] == other);
                        }
                    }
                    assert forall|other: u64|
                        other != id && prev.registered(other) implies self.same_session(
                            &prev,
                            other,
                        ) by {
                        prev.lemma_registered(other);
                        let k = position(ids, other);
                        prev.lemma_position(k);
                        let k1 = if k < i { k } else { k - 1 };
                        self.lemma_position(k1);
                    }
                }
                true
            },
        }
    }
    /// Carries out one command from the application. Returns whether the
    /// worker goes on after it.
    pub fn handle(&mut self, command: Command<U>) -> (r: bool)
        requires
            old(self).wf(),
        ensures
            final(self).wf(),
            command is Shutdown ==> {
                &&& !r
                &&& !final(self).is_open()
                &&& final(self).count() == 0
                &&& final(self).updates() == old(self).updates()
                &&& final(self).tree_kept(old(self))
            },
            command matches Command::UpdateTree(u) ==> {
                &&& r == old(self).is_open()
                &&& final(self).is_open() == old(self).is_open()
                &&& final(self).ids() == old(self).ids()
                &&& (old(self).is_open() && old(self).tree_built() ==> final(self).fanned_out(
                    old(self),
                    u,
                ))
                &&& (final(self).fanned_out(old(self), u) || final(self).kept(old(self)))
                &&& (old(self).is_open() ==> final(self).built_as_factory_said(old(self)))
                &&& (old(self).is_open() ==> !final(self).tree_pending())
                &&& (!old(self).tree_pending() ==> final(self).tree_built() == old(
                    self,
                ).tree_built())
                &&& (!old(self).is_open() ==> final(self).tree_kept(old(self)))
            },
            command matches Command::DeliverBytes(id, payload) ==> {
                &&& r == old(self).is_open()
                &&& final(self).tree_kept(old(self))
                &&& final(self).is_open() == old(self).is_open()
                &&& final(self).updates() == old(self).updates()
                &&& (old(self).is_open() && !old(self).registered(id) ==> {
                    &&& final(self).ids() == old(self).ids().push(id)
                    &&& final(self).stream(id) == seq![payload@]
                    &&& !final(self).subscribed(id)
                })
                &&& (!old(self).is_open() || old(self).registered(id) ==> final(self).ids()
                    == old(self).ids())
                &&& forall|other: u64|
                    other != id && old(self).registered(other) ==> final(self).same_session(
                        old(self),
                        other,
                    )
            },
    {
        match command {
            Command::UpdateTree(u) => {
                self.update(u);
                self.open
            },
            Command::DeliverBytes(id, payload) => {
                let _ = self.deliver(id, payload);
                self.open
            },
            Command::Shutdown => {
                self.shutdown();
                false
            },
        }
    }

    /// One payload has been sent out for each update taken, in the same
    /// order.
    pub proof fn lemma_payload_per_update(&self)
        requires
            self.wf(),
        ensures
            self.payloads().len() == self.updates().len(),
    {
    }

    /// What a subscribed connection has been sent or still has pending: the
    /// snapshot it got on arrival, then the state after each update made
    /// since, in the order of the updates, each once. What has been written
    /// is a prefix of it, and the rest waits in order.
    pub proof fn lemma_stream_order(&self, id: u64)
        requires
            self.wf(),
            self.registered(id),
            self.subscribed(id),
        ensures
            self.stream(id).len() >= 1,
            self.joined(id) <= self.updates().len(),
            self.stream(id).drop_first() == self.payloads().subrange(
                self.joined(id) as int,
                self.updates().len() as int,
            ),
            self.sent(id) <= self.stream(id).len(),
            self.pending(id) == self.stream(id).subrange(
                self.sent(id) as int,
                self.stream(id).len() as int,
            ),
    {
        self.lemma_registered(id);
    }
}

} // verus!
