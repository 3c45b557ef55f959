//! The key exchange manager: a cache of key states per (track, file)
//! identity, a table from in-flight sequence ids to identities, and the
//! counter that issues sequence ids.
//!
//! The manager never touches the session itself. `request` says what to do
//! for an identity; when it answers with a packet, the caller sends it with
//! command `CMD_REQUEST_KEY` and, once the send succeeded, calls
//! `confirm_sent`. A failed send therefore leaves no trace in the manager.
//! Inbound responses go to `handle`, which names the waiters to complete.
use vstd::prelude::*;
use crate::wire::{
    CMD_KEY_FAILED, CMD_KEY_OK, be_u32, key_bytes, read_key, read_sequence, request_payload,
    request_payload_spec,
};

verus! {

/// A track's 128-bit id, in its raw big-endian form.
#[derive(Clone, Copy, Debug, PartialEq, Eq, Hash)]
pub struct SpotifyId(pub [u8; 16]);

impl SpotifyId {
    /// The raw bytes of the id.
    pub fn to_raw(&self) -> (r: [u8; 16])
        ensures
            r@ == self.0@,
    {
        self.0
    }
}

/// The id of one encoded file of a track.
#[derive(Clone, Copy, Debug, PartialEq, Eq, Hash)]
pub struct FileId(pub [u8; 20]);

/// The 16-byte secret that decrypts a file's audio.
pub type AudioKey = [u8; 16];

/// The remote service refused a key request.
#[derive(Clone, Copy, Debug, PartialEq, Eq, Hash, Structural)]
pub struct AudioKeyError;

/// A response payload was too short for what its command carries.
#[derive(Clone, Copy, Debug, PartialEq, Eq, Hash, Structural)]
pub struct DecodeError;

/// A key identity as plain values: the raw track id and the file id.
pub type KeyIdentity = (Seq<u8>, Seq<u8>);

/// The identity of `track` and `file`.
pub open spec fn identity(track: SpotifyId, file: FileId) -> KeyIdentity {
    (track.0@, file.0@)
}

/// What is known of a key identity.
pub enum KeyState {
    /// A request is in flight; these waiters, in order, await its outcome.
    Pending(Seq<u64>),
    /// The service returned this key material.
    Resolved(Seq<u8>),
    /// The service refused the request.
    Failed,
}

/// The manager as plain values.
pub struct ManagerView {
    /// The sequence id that the next request is sent under.
    pub next_seq: u32,
    /// The state of each identity requested so far.
    pub cache: Map<KeyIdentity, KeyState>,
    /// The identity that each in-flight sequence id was issued for.
    pub pending: Map<u32, KeyIdentity>,
}

#[derive(Clone, Copy)]
struct AudioKeyId(SpotifyId, FileId);

impl View for AudioKeyId {
    type V = KeyIdentity;

    closed spec fn view(&self) -> KeyIdentity {
        identity(self.0, self.1)
    }
}

enum AudioKeyStatus {
    Loading(Vec<u64>),
    Loaded(AudioKey),
    Failed(AudioKeyError),
}

impl View for AudioKeyStatus {
    type V = KeyState;

    closed spec fn view(&self) -> KeyState {
        match self {
            AudioKeyStatus::Loading(ws) => KeyState::Pending(ws@),
            AudioKeyStatus::Loaded(k) => KeyState::Resolved(k@),
            AudioKeyStatus::Failed(_) => KeyState::Failed,
        }
    }
}

/// What `request` tells its caller to do.
pub enum Requested {
    /// The outcome is known already; nothing is sent.
    Ready(Result<AudioKey, AudioKeyError>),
    /// The waiter joined the request in flight for this identity.
    Waiting,
    /// Nothing is known yet: send this payload, then call `confirm_sent`.
    Send(Vec<u8>),
    /// Every sequence id has been issued; no request can be sent.
    Exhausted,
}

/// `Requested` as plain values.
pub enum RequestAnswer {
    /// The stored key material.
    Key(Seq<u8>),
    /// The stored failure.
    Failure,
    /// The waiter joined a request in flight.
    Joined,
    /// This request payload is to be sent.
    Send(Seq<u8>),
    /// No sequence id is left.
    Exhausted,
}

impl Requested {
    /// The answer as plain values.
    pub open spec fn answer(&self) -> RequestAnswer {
        match self {
            Requested::Ready(Ok(k)) => RequestAnswer::Key(k@),
            Requested::Ready(Err(_)) => RequestAnswer::Failure,
            Requested::Waiting => RequestAnswer::Joined,
            Requested::Send(p) => RequestAnswer::Send(p@),
            Requested::Exhausted => RequestAnswer::Exhausted,
        }
    }
}

/// The waiters of a settled request and the outcome they all receive.
pub struct Resolution {
    pub waiters: Vec<u64>,
    pub outcome: Result<AudioKey, AudioKeyError>,
}

/// What `handle` did with a response, as plain values.
pub enum HandleAnswer {
    /// The payload was too short; nothing changed.
    Malformed,
    /// The response matched no request in flight; nothing changed.
    Ignored,
    /// These waiters receive this key material.
    Resolved(Seq<u64>, Seq<u8>),
    /// These waiters receive the failure.
    Failed(Seq<u64>),
}

/// The answer that `handle`'s result stands for.
pub open spec fn handle_result(r: Result<Option<Resolution>, DecodeError>) -> HandleAnswer {
    match r {
        Err(_) => HandleAnswer::Malformed,
        Ok(None) => HandleAnswer::Ignored,
        Ok(Some(res)) => match res.outcome {
            Ok(k) => HandleAnswer::Resolved(res.waiters@, k@),
            Err(_) => HandleAnswer::Failed(res.waiters@),
        },
    }
}

/// What a request for `id` answers in state `s`.
pub open spec fn request_answer(s: ManagerView, id: KeyIdentity) -> RequestAnswer {
    if s.cache.contains_key(id) {
        match s.cache[id] {
            KeyState::Resolved(k) => RequestAnswer::Key(k),
            KeyState::Failed => RequestAnswer::Failure,
            KeyState::Pending(_) => RequestAnswer::Joined,
        }
    } else if s.next_seq == u32::MAX {
        RequestAnswer::Exhausted
    } else {
        RequestAnswer::Send(request_payload_spec(id.0, id.1, s.next_seq))
    }
}

/// The state after `waiter` requests `id` in state `s`: only a pending
/// identity changes, by the new waiter at the end of its list.
pub open spec fn after_request(s: ManagerView, id: KeyIdentity, waiter: u64) -> ManagerView {
    if s.cache.contains_key(id) && s.cache[id] is Pending {
        ManagerView {
            cache: s.cache.insert(id, KeyState::Pending(s.cache[id]->Pending_0.push(waiter))),
            ..s
        }
    } else {
        s
    }
}

/// Whether a request for `id` may be recorded as sent in state `s`.
pub open spec fn can_record(s: ManagerView, id: KeyIdentity) -> bool {
    !s.cache.contains_key(id) && s.next_seq < u32::MAX
}

/// The state after the request for `id` was sent on behalf of `waiter`: the
/// sequence id is used up, correlated with `id`, and `id` is pending with
/// `waiter` as its one waiter.
pub open spec fn after_sent(s: ManagerView, id: KeyIdentity, waiter: u64) -> ManagerView {
    if can_record(s, id) {
        ManagerView {
            next_seq: (s.next_seq + 1) as u32,
            cache: s.cache.insert(id, KeyState::Pending(seq![waiter])),
            pending: s.pending.insert(s.next_seq, id),
        }
    } else {
        s
    }
}

/// Whether a response is one this manager acts on in state `s`: a
/// recognised command and a sequence id in flight.
pub open spec fn is_live_response(s: ManagerView, cmd: u8, data: Seq<u8>) -> bool {
    &&& data.len() >= 4
    &&& cmd == CMD_KEY_OK || cmd == CMD_KEY_FAILED
    &&& s.pending.contains_key(be_u32(data))
}

/// Whether a response payload is too short for its command.
pub open spec fn is_malformed(s: ManagerView, cmd: u8, data: Seq<u8>) -> bool {
    data.len() < 4 || (is_live_response(s, cmd, data) && cmd == CMD_KEY_OK && data.len() < 20)
}

/// What `handle` answers to a response in state `s`.
pub open spec fn handle_answer(s: ManagerView, cmd: u8, data: Seq<u8>) -> HandleAnswer {
    if is_malformed(s, cmd, data) {
        HandleAnswer::Malformed
    } else if !is_live_response(s, cmd, data) {
        HandleAnswer::Ignored
    } else {
        let id = s.pending[be_u32(data)];
        if s.cache.contains_key(id) && s.cache[id] is Pending {
            let ws = s.cache[id]->Pending_0;
            if cmd == CMD_KEY_OK {
                HandleAnswer::Resolved(ws, key_bytes(data))
            } else {
                HandleAnswer::Failed(ws)
            }
        } else {
            HandleAnswer::Ignored
        }
    }
}

/// The state after a response: the sequence id is retired and its identity
/// becomes resolved or failed. A malformed or unmatched response changes
/// nothing.
pub open spec fn after_handle(s: ManagerView, cmd: u8, data: Seq<u8>) -> ManagerView {
    if is_malformed(s, cmd, data) || !is_live_response(s, cmd, data) {
        s
    } else {
        let seq = be_u32(data);
        let id = s.pending[seq];
        let cache = if s.cache.contains_key(id) && s.cache[id] is Pending {
            if cmd == CMD_KEY_OK {
                s.cache.insert(id, KeyState::Resolved(key_bytes(data)))
            } else {
                s.cache.insert(id, KeyState::Failed)
            }
        } else {
            s.cache
        };
        ManagerView { next_seq: s.next_seq, cache, pending: s.pending.remove(seq) }
    }
}

/// The state of a new manager: nothing requested, the first request goes
/// out under sequence id 1.
pub open spec fn initial_view() -> ManagerView {
    ManagerView { next_seq: 1, cache: Map::empty(), pending: Map::empty() }
}

/// Correlates key requests with responses and caches their outcome.
pub struct AudioKeyManager {
    next_seq: u32,
    pending: Vec<(u32, AudioKeyId)>,
    cache: Vec<(AudioKeyId, AudioKeyStatus)>,
    pending_model: Ghost<Map<u32, KeyIdentity>>,
    cache_model: Ghost<Map<KeyIdentity, KeyState>>,
}

impl View for AudioKeyManager {
    type V = ManagerView;

    closed spec fn view(&self) -> ManagerView {
        ManagerView {
            next_seq: self.next_seq,
            cache: self.cache_model@,
            pending: self.pending_model@,
        }
    }
}

/// The invariant of the plain-value state: sequence ids in flight were
/// issued already, each belongs to a distinct identity, and that identity is
/// pending.
pub open spec fn view_wf(s: ManagerView) -> bool {
    &&& s.next_seq >= 1
    &&& forall|q: u32| #[trigger] s.pending.contains_key(q) ==> {
        &&& 1 <= q < s.next_seq
        &&& s.cache.contains_key(s.pending[q])
        &&& s.cache[s.pending[q]] is Pending
    }
    &&& forall|q1: u32, q2: u32|
        #[trigger] s.pending.contains_key(q1) && #[trigger] s.pending.contains_key(q2) && q1 != q2
            ==> s.pending[q1] != s.pending[q2]
}

/// The cache table holds exactly the view's cache, one entry per identity.
spec fn cache_agrees(cache: Seq<(AudioKeyId, AudioKeyStatus)>, model: Map<KeyIdentity, KeyState>) -> bool {
    &&& forall|i: int|
        0 <= i < cache.len() ==> {
            &&& #[trigger] model.contains_key(cache[i].0@)
            &&& model[cache[i].0@] == cache[i].1@
        }
    &&& forall|i: int, j: int|
        0 <= i < j < cache.len() ==> #[trigger] cache[i].0@ != #[trigger] cache[j].0@
    &&& forall|k: KeyIdentity|
        #[trigger] model.contains_key(k) ==> exists|i: int|
            0 <= i < cache.len() && #[trigger] cache[i].0@ == k
}

/// The correlation table holds exactly the view's sequence ids in
/// flight, one entry per id.
spec fn pending_agrees(pending: Seq<(u32, AudioKeyId)>, model: Map<u32, KeyIdentity>) -> bool {
    &&& forall|i: int|
        0 <= i < pending.len() ==> {
            &&& #[trigger] model.contains_key(pending[i].0)
            &&& model[pending[i].0] == pending[i].1@
        }
    &&& forall|i: int, j: int|
        0 <= i < j < pending.len() ==> #[trigger] pending[i].0 != #[trigger] pending[j].0
    &&& forall|q: u32|
        #[trigger] model.contains_key(q) ==> exists|i: int|
            0 <= i < pending.len() && #[trigger] pending[i].0 == q
}

fn same_bytes<const N: usize>(a: &[u8; N], b: &[u8; N]) -> (r: bool)
    ensures
        r == (a@ == b@),
{
    let mut i: usize = 0;
    while i < N
        invariant
            i <= N,
            a@.len() == N,
            b@.len() == N,
            forall|j: int| 0 <= j < i ==> a@[j] == b@[j],
        decreases N - i,
    {
        if a[i] != b[i] {
            return false;
        }
        i = i + 1;
    }
    assert(a@ =~= b@);
    true
}

fn same_id(a: &AudioKeyId, b: &AudioKeyId) -> (r: bool)
    ensures
        r == (a@ == b@),
{
    same_bytes(&a.0.0, &b.0.0) && same_bytes(&a.1.0, &b.1.0)
}

impl AudioKeyManager {
    /// The manager's invariant: the tables hold exactly what the view says,
    /// and the view is well formed.
    pub closed spec fn wf(&self) -> bool {
        &&& view_wf(self@)
        &&& cache_agrees(self.cache@, self.cache_model@)
        &&& pending_agrees(self.pending@, self.pending_model@)
    }

    /// A manager with nothing requested; the first request goes out under
    /// sequence id 1.
    pub fn new() -> (r: AudioKeyManager)
        ensures
            r.wf(),
            r@ == initial_view(),
    {
        AudioKeyManager {
            next_seq: 1,
            pending: Vec::new(),
            cache: Vec::new(),
            pending_model: Ghost(Map::empty()),
            cache_model: Ghost(Map::empty()),
        }
    }

    fn find_cache(&self, id: &AudioKeyId) -> (r: Option<usize>)
        requires
            self.wf(),
        ensures
            match r {
                Some(i) => i < self.cache@.len() && self.cache@[i as int].0@ == id@,
                None => !self.cache_model@.contains_key(id@),
            },
    {
        let mut i: usize = 0;
        while i < self.cache.len()
            invariant
                i <= self.cache@.len(),
                forall|j: int| 0 <= j < i ==> self.cache@[j].0@ != id@,
            decreases self.cache@.len() - i,
        {
            if same_id(&self.cache[i].0, id) {
                return Some(i);
            }
            i = i + 1;
        }
        None
    }

    fn find_pending(&self, seq: u32) -> (r: Option<usize>)
        requires
            self.wf(),
        ensures
            match r {
                Some(i) => i < self.pending@.len() && self.pending@[i as int].0 == seq,
                None => !self.pending_model@.contains_key(seq),
            },
    {
        let mut i: usize = 0;
        while i < self.pending.len()
            invariant
                i <= self.pending@.len(),
                forall|j: int| 0 <= j < i ==> self.pending@[j].0 != seq,
            decreases self.pending@.len() - i,
        {
            if self.pending[i].0 == seq {
                return Some(i);
            }
            i = i + 1;
        }
        None
    }

    /// Asks for the key of `file` of `track` on behalf of `waiter`.
    ///
    /// A resolved or failed identity answers at once, a pending one takes
    /// `waiter` on as one more waiter, and an unknown one answers with the
    /// payload of a request under the next sequence id. Only a pending
    /// identity changes the manager.
    pub fn request(&mut self, track: SpotifyId, file: FileId, waiter: u64) -> (r: Requested)
        requires
            old(self).wf(),
        ensures
            final(self).wf(),
            final(self)@ == after_request(old(self)@, identity(track, file), waiter),
            r.answer() == request_answer(old(self)@, identity(track, file)),
    {
        let id = AudioKeyId(track, file);
        match self.find_cache(&id) {
            Some(i) => {
                let ghost before = self.cache@;
                let (cid, status) = self.cache.remove(i);
                match status {
                    AudioKeyStatus::Loaded(key) => {
                        self.cache.insert(i, (cid, AudioKeyStatus::Loaded(key)));
                        assert(self.cache@ =~= before);
                        assert(self.wf());
                        Requested::Ready(Ok(key))
                    },
                    AudioKeyStatus::Failed(e) => {
                        self.cache.insert(i, (cid, AudioKeyStatus::Failed(e)));
                        assert(self.cache@ =~= before);
                        assert(self.wf());
                        Requested::Ready(Err(e))
                    },
                    AudioKeyStatus::Loading(mut ws) => {
                        ws.push(waiter);
                        let entry = (cid, AudioKeyStatus::Loading(ws));
                        self.cache.insert(i, entry);
                        assert(self.cache@ =~= before.update(i as int, entry));
                        self.cache_model = Ghost(
                            self.cache_model@.insert(id@, KeyState::Pending(ws@)),
                        );
                        proof {
                            let m = self.cache_model@;
                            assert forall|k: KeyIdentity| #[trigger] m.contains_key(k) implies exists|j: int|
                                0 <= j < self.cache@.len() && #[trigger] self.cache@[j].0@ == k by {
                                if k != id@ {
                                    let j = choose|j: int| 0 <= j < before.len() && #[trigger] before[j].0@ == k;
                                    assert(self.cache@[j].0@ == k);
                                } else {
                                    assert(self.cache@[i as int].0@ == k);
                                }
                            }
                            assert forall|q: u32| #[trigger] self.pending_model@.contains_key(q) implies {
                                &&& m.contains_key(self.pending_model@[q])
                                &&& m[self.pending_model@[q]] is Pending
                            } by {
                                assert(old(self).cache_model@.contains_key(self.pending_model@[q]));
                            }
                            assert forall|j: int| 0 <= j < self.cache@.len() implies {
                                &&& #[trigger] m.contains_key(self.cache@[j].0@)
                                &&& m[self.cache@[j].0@] == self.cache@[j].1@
                            } by {
                                if j != i {
                                    assert(self.cache@[j] == before[j]);
                                }
                            }
                            assert forall|j1: int, j2: int| 0 <= j1 < j2 < self.cache@.len() implies
                                #[trigger] self.cache@[j1].0@ != #[trigger] self.cache@[j2].0@ by {
                                assert(before[j1].0@ != before[j2].0@);
                            }
                            assert(view_wf(self@));
                            assert(cache_agrees(self.cache@, self.cache_model@));
                            assert(pending_agrees(self.pending@, self.pending_model@));
                        }
                        Requested::Waiting
                    },
                }
            },
            None => {
                if self.next_seq == u32::MAX {
                    Requested::Exhausted
                } else {
                    Requested::Send(request_payload(&track.0, &file.0, self.next_seq))
                }
            },
        }
    }

    /// Records that the request payload that `request` returned for `file` of
    /// `track` was sent: the next sequence id is used up and correlated with
    /// the identity, which becomes pending with `waiter` as its one waiter.
    /// Returns that sequence id; where the identity is known already or no
    /// sequence id is left, returns `None` and changes nothing.
    pub fn confirm_sent(&mut self, track: SpotifyId, file: FileId, waiter: u64) -> (r: Option<u32>)
        requires
            old(self).wf(),
        ensures
            final(self).wf(),
            final(self)@ == after_sent(old(self)@, identity(track, file), waiter),
            r == (if can_record(old(self)@, identity(track, file)) {
                Some(old(self)@.next_seq)
            } else {
                None
            }),
    {
        let id = AudioKeyId(track, file);
        if self.next_seq == u32::MAX {
            return None;
        }
        if self.find_cache(&id).is_some() {
            return None;
        }
        let seq = self.next_seq;
        let ghost pbefore = self.pending@;
        let ghost cbefore = self.cache@;
        let mut ws: Vec<u64> = Vec::new();
        ws.push(waiter);
        let ghost st = KeyState::Pending(ws@);
        self.pending.push((seq, id));
        self.cache.push((id, AudioKeyStatus::Loading(ws)));
        self.next_seq = seq + 1;
        self.pending_model = Ghost(self.pending_model@.insert(seq, id@));
        self.cache_model = Ghost(self.cache_model@.insert(id@, st));
        proof {
            let pm = self.pending_model@;
            let cm = self.cache_model@;
            let n = pbefore.len() as int;
            let c = cbefore.len() as int;
            assert(self.pending@[n].0 == seq);
            assert(self.cache@[c].0@ == id@);
            assert forall|q: u32| #[trigger] pm.contains_key(q) implies exists|j: int|
                0 <= j < self.pending@.len() && #[trigger] self.pending@[j].0 == q by {
                if q != seq {
                    let j = choose|j: int| 0 <= j < pbefore.len() && #[trigger] pbefore[j].0 == q;
                    assert(self.pending@[j].0 == q);
                }
            }
            assert forall|k: KeyIdentity| #[trigger] cm.contains_key(k) implies exists|j: int|
                0 <= j < self.cache@.len() && #[trigger] self.cache@[j].0@ == k by {
                if k != id@ {
                    let j = choose|j: int| 0 <= j < cbefore.len() && #[trigger] cbefore[j].0@ == k;
                    assert(self.cache@[j].0@ == k);
                }
            }
            assert forall|i: int| 0 <= i < self.pending@.len() implies {
                &&& #[trigger] pm.contains_key(self.pending@[i].0)
                &&& pm[self.pending@[i].0] == self.pending@[i].1@
            } by {
                if i < n {
                    assert(self.pending@[i] == pbefore[i]);
                    assert(old(self).pending_model@.contains_key(pbefore[i].0));
                    assert(pbefore[i].0 < seq);
                }
            }
            assert forall|i: int| 0 <= i < self.cache@.len() implies {
                &&& #[trigger] cm.contains_key(self.cache@[i].0@)
                &&& cm[self.cache@[i].0@] == self.cache@[i].1@
            } by {
                if i < c {
                    assert(self.cache@[i] == cbefore[i]);
                }
            }
            assert forall|i: int, j: int| 0 <= i < j < self.pending@.len() implies
                #[trigger] self.pending@[i].0 != #[trigger] self.pending@[j].0 by {
                assert(old(self).pending_model@.contains_key(pbefore[i].0));
                if j < n {
                    assert(pbefore[i].0 != pbefore[j].0);
                }
            }
            assert(view_wf(self@));
            assert(cache_agrees(self.cache@, self.cache_model@));
            assert(pending_agrees(self.pending@, self.pending_model@));
            assert(self@ == after_sent(old(self)@, identity(track, file), waiter));
        }
        Some(seq)
    }

    /// Takes an inbound response with command `cmd` and payload `data`.
    ///
    /// A response whose sequence id is in flight retires that id; on
    /// `CMD_KEY_OK` its identity becomes resolved with the 16 bytes after the
    /// sequence id, on `CMD_KEY_FAILED` it becomes failed, and the identity's
    /// waiters are returned with that outcome. A response with another
    /// command or a sequence id not in flight is ignored. A payload too short
    /// for a sequence id, or a success payload too short for a key, is a
    /// `DecodeError` and changes nothing.
    pub fn handle(&mut self, cmd: u8, data: &[u8]) -> (r: Result<Option<Resolution>, DecodeError>)
        requires
            old(self).wf(),
        ensures
            final(self).wf(),
            final(self)@ == after_handle(old(self)@, cmd, data@),
            handle_result(r) == handle_answer(old(self)@, cmd, data@),
    {
        let seq = match read_sequence(data) {
            Some(q) => q,
            None => return Err(DecodeError),
        };
        if cmd != CMD_KEY_OK && cmd != CMD_KEY_FAILED {
            return Ok(None);
        }
        let p = match self.find_pending(seq) {
            Some(p) => p,
            None => return Ok(None),
        };
        let outcome: Result<AudioKey, AudioKeyError> = if cmd == CMD_KEY_OK {
            match read_key(data) {
                Some(k) => Ok(k),
                None => return Err(DecodeError),
            }
        } else {
            Err(AudioKeyError)
        };
        let id = self.pending[p].1;
        assert(self.pending_model@.contains_key(self.pending@[p as int].0));
        let i = match self.find_cache(&id) {
            Some(i) => i,
            None => return Ok(None),
        };
        let ghost pbefore = self.pending@;
        let ghost cbefore = self.cache@;
        let ghost pm0 = self.pending_model@;
        self.pending.remove(p);
        self.pending_model = Ghost(self.pending_model@.remove(seq));
        proof {
            let pm = self.pending_model@;
            assert forall|j: int| 0 <= j < self.pending@.len() implies #[trigger] self.pending@[j]
                == (if j < p { pbefore[j] } else { pbefore[j + 1] }) by {}
            assert forall|j: int| 0 <= j < self.pending@.len() implies {
                &&& #[trigger] pm.contains_key(self.pending@[j].0)
                &&& pm[self.pending@[j].0] == self.pending@[j].1@
            } by {
                if j < p {
                    assert(self.pending@[j] == pbefore[j]);
                    assert(pbefore[j].0 != pbefore[p as int].0);
                } else {
                    assert(self.pending@[j] == pbefore[j + 1]);
                    assert(pbefore[p as int].0 != pbefore[j + 1].0);
                }
            }
            assert forall|q: u32| #[trigger] pm.contains_key(q) implies exists|j: int|
                0 <= j < self.pending@.len() && #[trigger] self.pending@[j].0 == q by {
                let j = choose|j: int| 0 <= j < pbefore.len() && #[trigger] pbefore[j].0 == q;
                assert(j != p);
                if j < p {
                    assert(self.pending@[j].0 == q);
                } else {
                    assert(self.pending@[j - 1].0 == q);
                }
            }
            assert forall|j1: int, j2: int| 0 <= j1 < j2 < self.pending@.len() implies
                #[trigger] self.pending@[j1].0 != #[trigger] self.pending@[j2].0 by {
                let o1 = if j1 < p { j1 } else { j1 + 1 };
                let o2 = if j2 < p { j2 } else { j2 + 1 };
                assert(self.pending@[j1] == pbefore[o1]);
                assert(self.pending@[j2] == pbefore[o2]);
                assert(pbefore[o1].0 != pbefore[o2].0);
            }
            assert(pending_agrees(self.pending@, self.pending_model@));
        }
        let (cid, status) = self.cache.remove(i);
        match status {
            AudioKeyStatus::Loading(ws) => {
                let new_status = match outcome {
                    Ok(k) => AudioKeyStatus::Loaded(k),
                    Err(e) => AudioKeyStatus::Failed(e),
                };
                let ghost st = new_status@;
                let entry = (cid, new_status);
                self.cache.insert(i, entry);
                assert(self.cache@ =~= cbefore.update(i as int, entry));
                self.cache_model = Ghost(self.cache_model@.insert(id@, st));
                proof {
                    let cm = self.cache_model@;
                    assert forall|k: KeyIdentity| #[trigger] cm.contains_key(k) implies exists|j: int|
                        0 <= j < self.cache@.len() && #[trigger] self.cache@[j].0@ == k by {
                        if k != id@ {
                            let j = choose|j: int| 0 <= j < cbefore.len() && #[trigger] cbefore[j].0@ == k;
                            assert(self.cache@[j].0@ == k);
                        } else {
                            assert(self.cache@[i as int].0@ == k);
                        }
                    }
                    assert forall|q: u32| #[trigger] self.pending_model@.contains_key(q) implies
                        self.pending_model@[q] != id@ by {
                        assert(pm0.contains_key(q) && pm0.contains_key(seq) && q != seq);
                    }
                    assert(view_wf(self@));
                    assert(cache_agrees(self.cache@, self.cache_model@));
                    assert(pending_agrees(self.pending@, self.pending_model@));
                    assert(self.wf());
                    assert(self@ == after_handle(old(self)@, cmd, data@));
                }
                Ok(Some(Resolution { waiters: ws, outcome }))
            },
            other => {
                self.cache.insert(i, (cid, other));
                assert(self.cache@ =~= cbefore);
                Ok(None)
            },
        }
    }
}

} // verus!
