//! Action requests from clients: collecting their bytes and decoding them.
use vstd::prelude::*;
use crate::hub::{lemma_position_unique, position};

verus! {

/// `accesskit::ActionRequest`, handed on to the application unread.
#[verifier::external_type_specification]
#[verifier::external_body]
pub struct ExActionRequest(accesskit::ActionRequest);

/// `serde_json::Error`, only told apart from success.
#[verifier::external_type_specification]
#[verifier::external_body]
pub struct ExJsonError(serde_json::Error);

/// Whether `b` is the JSON text of an action request.
pub uninterp spec fn parses_as_action_request(b: Seq<u8>) -> bool;

/// Relies on `serde_json::from_slice` for `accesskit::ActionRequest`: it
/// succeeds exactly on the JSON texts of an action request.
#[verifier::external_body]
fn action_request_from_json(b: &[u8]) -> (r: Result<accesskit::ActionRequest, serde_json::Error>)
    ensures
        r is Ok <==> parses_as_action_request(b@),
{
    serde_json::from_slice::<accesskit::ActionRequest>(b)
}

/// Decodes one complete action request; bytes that are no such request
/// give `None`.
pub fn decode_action_request(b: &[u8]) -> (r: Option<accesskit::ActionRequest>)
    ensures
        r is Some <==> parses_as_action_request(b@),
{
    match action_request_from_json(b) {
        Ok(request) => Some(request),
        Err(_) => None,
    }
}

/// The bytes received so far of one request that is still coming in.
struct Partial {
    id: u64,
    bytes: Vec<u8>,
}

/// The requests that are still coming in, each under the identifier of the
/// transport it arrives on. Each is read once, to its end, and then leaves.
pub struct Inbox {
    partials: Vec<Partial>,
}

impl Inbox {
    pub closed spec fn ids(&self) -> Seq<u64> {
        Seq::new(self.partials@.len(), |i: int| self.partials@[i].id)
    }

    /// A request is coming in on transport `id`.
    pub open spec fn reading(&self, id: u64) -> bool {
        self.ids().contains(id)
    }

    /// What has arrived so far of the request on transport `id`.
    pub closed spec fn received(&self, id: u64) -> Seq<u8> {
        self.partials@[position(self.ids(), id)].bytes@
    }

    pub closed spec fn wf(&self) -> bool {
        forall|i: int, j: int|
            0 <= i < self.partials@.len() && 0 <= j < self.partials@.len()
                && #[trigger] self.partials@[i].id == #[trigger] self.partials@[j].id ==> i == j
    }

    proof fn lemma_position(&self, i: int)
        requires
            self.wf(),
            0 <= i < self.partials@.len(),
        ensures
            self.ids()[i] == self.partials@[i].id,
            self.reading(self.partials@[i].id),
            position(self.ids(), self.partials@[i].id) == i,
    {
        let ids = self.ids();
        assert forall|a: int, b: int|
            0 <= a < ids.len() && 0 <= b < ids.len() && #[trigger] ids[a] == #[trigger] ids[b]
                implies a == b by {
            assert(self.partials@[a].id == self.partials@[b].id);
        }
        lemma_position_unique(ids, i);
    }

    pub fn new() -> (r: Self)
        ensures
            r.wf(),
            forall|id: u64| !r.reading(id),
    {
        let r = Inbox { partials: Vec::new() };
        assert(r.ids() =~= Seq::<u64>::empty());
        r
    }

    fn find(&self, id: u64) -> (r: Option<usize>)
        requires
            self.wf(),
        ensures
            r is Some <==> self.reading(id),
            r matches Some(i) ==> i < self.partials@.len() && i == position(self.ids(), id)
                && self.partials@[i as int].id == id,
    {
        let mut i: usize = 0;
        while i < self.partials.len()
            invariant
                self.wf(),
                0 <= i <= self.partials@.len(),
                forall|j: int| 0 <= j < i ==> self.partials@[j].id != id,
            decreases self.partials@.len() - i,
        {
            if self.partials[i].id == id {
                proof {
                    self.lemma_position(i as int);
                }
                return Some(i);
            }
            i = i + 1;
        }
        proof {
            if self.reading(id) {
                let j = choose|j: int| 0 <= j < self.ids().len() && self.ids()[j] == id;
                assert(self.partials@[j].id == id);
            }
        }
        None
    }

    /// Starts reading a request on transport `id`. Returns `false`, and
    /// changes nothing, when one is already coming in there.
    pub fn start(&mut self, id: u64) -> (r: bool)
        requires
            old(self).wf(),
        ensures
            final(self).wf(),
            r == !old(self).reading(id),
            final(self).reading(id),
            r ==> final(self).received(id) == Seq::<u8>::empty(),
            !r ==> final(self).received(id) == old(self).received(id),
            forall|other: u64|
                other != id ==> final(self).reading(other) == old(self).reading(other),
            forall|other: u64|
                other != id && old(self).reading(other) ==> final(self).received(other) == old(
                    self,
                ).received(other),
    {
        if self.find(id).is_some() {
            return false;
        }
        let ghost prev = *self;
        self.partials.push(Partial { id, bytes: Vec::new() });
        proof {
            let n = prev.partials@.len();
            assert(self.ids() =~= prev.ids().push(id));
            assert forall|i: int, j: int|
                0 <= i < self.partials@.len() && 0 <= j < self.partials@.len()
                    && #[trigger] self.partials@[i].id == #[trigger] self.partials@[j].id
                    implies i == j by {
                if i < n && j < n {
                    assert(prev.partials@[i].id == prev.partials@[j].id);
                } else if i < n {
                    prev.lemma_position(i);
                } else if j < n {
                    prev.lemma_position(j);
                }
            }
            self.lemma_position(n as int);
            assert forall|other: u64| other != id implies (self.reading(other) == prev.reading(
                other,
            )) by {
                if self.reading(other) {
                    let k = choose|k: int| 0 <= k < self.ids().len() && self.ids()[k] == other;
                    assert(prev.ids()[k] == other);
                }
                if prev.reading(other) {
                    let k = choose|k: int| 0 <= k < prev.ids().len() && prev.ids()[k] == other;
                    assert(self.ids()[k] == other);
                }
            }
            assert forall|other: u64|
                other != id && prev.reading(other) implies self.received(other) == prev.received(
                    other,
                ) by {
                let k = choose|k: int| 0 <= k < prev.ids().len() && prev.ids()[k] == other;
                prev.lemma_position(k);
                self.lemma_position(k);
            }
        }
        true
    }

    /// Appends `bytes` to the request coming in on transport `id`. Returns
    /// whether one is coming in there.
    pub fn receive(&mut self, id: u64, bytes: &[u8]) -> (r: bool)
        requires
            old(self).wf(),
        ensures
            final(self).wf(),
            r == old(self).reading(id),
            forall|other: u64| final(self).reading(other) == old(self).reading(other),
            r ==> final(self).received(id) == old(self).received(id) + bytes@,
            forall|other: u64|
                other != id && old(self).reading(other) ==> final(self).received(other) == old(
                    self,
                ).received(other),
    {
        let ghost prev = *self;
        match self.find(id) {
            None => false,
            Some(i) => {
                self.partials[i].bytes.extend_from_slice(bytes);
                proof {
                    assert(self.ids() =~= prev.ids());
                    assert forall|a: int, b: int|
                        0 <= a < self.partials@.len() && 0 <= b < self.partials@.len()
                            && #[trigger] self.partials@[a].id == #[trigger] self.partials@[b].id
                            implies a == b by {
                        assert(prev.partials@[a].id == prev.partials@[b].id);
                    }
                    assert(self.partials@[i as int].bytes@ =~= prev.partials@[i as int].bytes@
                        + bytes@);
                    self.lemma_position(i as int);
                    assert forall|other: u64|
                        other != id && prev.reading(other) implies self.received(other)
                            == prev.received(other) by {
                        let k = choose|k: int| 0 <= k < prev.ids().len() && prev.ids()[k] == other;
                        prev.lemma_position(k);
                        self.lemma_position(k);
                    }
                }
                true
            },
        }
    }

    /// Ends the request on transport `id` and hands back all its bytes; the
    /// transport is then no longer read. `None` when none was coming in.
    pub fn finish(&mut self, id: u64) -> (r: Option<Vec<u8>>)
        requires
            old(self).wf(),
        ensures
            final(self).wf(),
            r is Some <==> old(self).reading(id),
            r matches Some(b) ==> b@ == old(self).received(id),
            !final(self).reading(id),
            forall|other: u64|
                other != id ==> final(self).reading(other) == old(self).reading(other),
            forall|other: u64|
                other != id && old(self).reading(other) ==> final(self).received(other) == old(
                    self,
                ).received(other),
    {
        let ghost prev = *self;
        match self.find(id) {
            None => None,
            Some(i) => {
                let partial = self.partials.remove(i);
                proof {
                    let ids = prev.ids();
                    assert(self.ids() =~= ids.remove(i as int));
                    assert forall|a: int, b: int|
                        0 <= a < self.partials@.len() && 0 <= b < self.partials@.len()
                            && #[trigger] self.partials@[a].id == #[trigger] self.partials@[b].id
                            implies a == b by {
                        let a2 = if a < i { a } else { a + 1 };
                        let b2 = if b < i { b } else { b + 1 };
                        assert(prev.partials@[a2].id == prev.partials@[b2].id);
                    }
                    if self.reading(id) {
                        let k = choose|k: int| 0 <= k < self.ids().len() && self.ids()[k] == id;
                        let k2 = if k < i { k } else { k + 1 };
                        prev.lemma_position(k2);
                        prev.lemma_position(i as int);
                    }
                    assert forall|other: u64| other != id implies (self.reading(other)
                        == prev.reading(other)) by {
                        if prev.reading(other) {
                            let k = choose|k: int| 0 <= k < ids.len() && ids[k] == other;
                            let k1 = if k < i { k } else { k - 1 };
                            assert(self.ids()[k1] == other);
                        }
                        if self.reading(other) {
                            let k = choose|k: int| 0 <= k < self.ids().len() && self.ids()[k] == other;
                            let k2 = if k < i { k } else { k + 1 };
                            assert(ids[k2] == other);
                        }
                    }
                    assert forall|other: u64|
                        other != id && prev.reading(other) implies self.received(other)
                            == prev.received(other) by {
                        let k = choose|k: int| 0 <= k < ids.len() && ids[k] == other;
                        prev.lemma_position(k);
                        let k1 = if k < i { k } else { k - 1 };
                        self.lemma_position(k1);
                    }
                    prev.lemma_position(i as int);
                }
                Some(partial.bytes)
            },
        }
    }

    /// Ends the request on transport `id` and decodes it. The result is an
    /// action request exactly when one was coming in there and its bytes
    /// are one; either way the transport is no longer read.
    pub fn complete(&mut self, id: u64) -> (r: Option<accesskit::ActionRequest>)
        requires
            old(self).wf(),
        ensures
            final(self).wf(),
            r is Some <==> old(self).reading(id) && parses_as_action_request(old(self).received(id)),
            !final(self).reading(id),
            forall|other: u64|
                other != id ==> final(self).reading(other) == old(self).reading(other),
            forall|other: u64|
                other != id && old(self).reading(other) ==> final(self).received(other) == old(
                    self,
                ).received(other),
    {
        match self.finish(id) {
            None => None,
            Some(bytes) => decode_action_request(bytes.as_slice()),
        }
    }
}

} // verus!
