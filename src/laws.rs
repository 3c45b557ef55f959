//! Properties of the key exchange that relate several steps of the manager.
use vstd::prelude::*;
use crate::manager::{
    HandleAnswer, KeyIdentity, KeyState, ManagerView, RequestAnswer, after_handle, after_request,
    after_sent, handle_answer, initial_view, request_answer, view_wf,
};
use crate::wire::{CMD_KEY_FAILED, CMD_KEY_OK, be_u32, key_bytes, request_payload_spec, u32_be};

verus! {

/// The four bytes of a sequence id read back as the same id.
pub proof fn sequence_bytes_round_trip(n: u32)
    ensures
        be_u32(u32_be(n)) == n,
{
    let b = u32_be(n);
    let a = n / 0x100_0000;
    let r1 = (n / 0x1_0000) % 0x100;
    let r2 = (n / 0x100) % 0x100;
    let r3 = n % 0x100;
    assert(a < 0x100 && r1 < 0x100 && r2 < 0x100 && r3 < 0x100);
    assert(b[0] == a && b[1] == r1 && b[2] == r2 && b[3] == r3);
    assert(a * 0x100_0000 + r1 * 0x1_0000 + r2 * 0x100 + r3 == n) by (nonlinear_arith)
        requires
            a == n / 0x100_0000,
            r1 == (n / 0x1_0000) % 0x100,
            r2 == (n / 0x100) % 0x100,
            r3 == n % 0x100,
    ;
}

/// A new manager sends the first request for any identity under sequence
/// id 1.
pub proof fn first_request_uses_sequence_one(id: KeyIdentity)
    ensures
        view_wf(initial_view()),
        request_answer(initial_view(), id) == RequestAnswer::Send(request_payload_spec(id.0, id.1, 1)),
{
}

/// An identity never requested before gets one request payload under the
/// next sequence id and no change of state; once it is sent, that id is
/// correlated with the identity, and the next request goes out under a
/// strictly greater id.
pub proof fn unknown_identity_sends_one_request(s: ManagerView, id: KeyIdentity, waiter: u64)
    requires
        view_wf(s),
        !s.cache.contains_key(id),
        s.next_seq < u32::MAX,
    ensures
        request_answer(s, id) == RequestAnswer::Send(request_payload_spec(id.0, id.1, s.next_seq)),
        after_request(s, id, waiter) == s,
        view_wf(after_sent(s, id, waiter)),
        after_sent(s, id, waiter).next_seq > s.next_seq,
        after_sent(s, id, waiter).pending[s.next_seq] == id,
        after_sent(s, id, waiter).cache[id] == KeyState::Pending(seq![waiter]),
{
}

/// A second request for an identity whose request is in flight sends
/// nothing and joins as a second waiter; the response then gives both
/// waiters the one outcome.
pub proof fn concurrent_requests_share_one_response(
    s: ManagerView,
    id: KeyIdentity,
    w1: u64,
    w2: u64,
    cmd: u8,
    data: Seq<u8>,
)
    requires
        view_wf(s),
        !s.cache.contains_key(id),
        s.next_seq < u32::MAX,
        data.len() >= 4,
        be_u32(data) == s.next_seq,
        cmd == CMD_KEY_FAILED || (cmd == CMD_KEY_OK && data.len() >= 20),
    ensures
        ({
            let s1 = after_sent(s, id, w1);
            let s2 = after_request(s1, id, w2);
            &&& request_answer(s1, id) == RequestAnswer::Joined
            &&& s2.next_seq == s1.next_seq
            &&& s2.pending == s1.pending
            &&& s2.cache[id] == KeyState::Pending(seq![w1, w2])
            &&& handle_answer(s2, cmd, data) == if cmd == CMD_KEY_OK {
                HandleAnswer::Resolved(seq![w1, w2], key_bytes(data))
            } else {
                HandleAnswer::Failed(seq![w1, w2])
            }
        }),
{
    let s1 = after_sent(s, id, w1);
    let s2 = after_request(s1, id, w2);
    assert(seq![w1].push(w2) =~= seq![w1, w2]);
    assert(s2.pending.contains_key(be_u32(data)));
}

/// A success response for a sequence id in flight gives every waiter of its
/// identity the key material of the response, resolves the identity with it
/// and retires the sequence id.
pub proof fn success_resolves_all_waiters(s: ManagerView, data: Seq<u8>)
    requires
        view_wf(s),
        data.len() >= 20,
        s.pending.contains_key(be_u32(data)),
    ensures
        ({
            let id = s.pending[be_u32(data)];
            let after = after_handle(s, CMD_KEY_OK, data);
            &&& handle_answer(s, CMD_KEY_OK, data) == HandleAnswer::Resolved(
                s.cache[id]->Pending_0,
                key_bytes(data),
            )
            &&& after.cache[id] == KeyState::Resolved(key_bytes(data))
            &&& !after.pending.contains_key(be_u32(data))
            &&& view_wf(after)
        }),
{
    let q = be_u32(data);
    let after = after_handle(s, CMD_KEY_OK, data);
    assert forall|q2: u32| #[trigger] after.pending.contains_key(q2) implies s.pending[q2] != s.pending[q] by {
        assert(s.pending.contains_key(q2) && q2 != q);
    }
}

/// A failure response for a sequence id in flight gives every waiter of its
/// identity the failure, marks the identity failed and retires the sequence
/// id.
pub proof fn failure_fails_all_waiters(s: ManagerView, data: Seq<u8>)
    requires
        view_wf(s),
        data.len() >= 4,
        s.pending.contains_key(be_u32(data)),
    ensures
        ({
            let id = s.pending[be_u32(data)];
            let after = after_handle(s, CMD_KEY_FAILED, data);
            &&& handle_answer(s, CMD_KEY_FAILED, data) == HandleAnswer::Failed(s.cache[id]->Pending_0)
            &&& after.cache[id] == KeyState::Failed
            &&& !after.pending.contains_key(be_u32(data))
            &&& view_wf(after)
        }),
{
    let q = be_u32(data);
    let after = after_handle(s, CMD_KEY_FAILED, data);
    assert forall|q2: u32| #[trigger] after.pending.contains_key(q2) implies s.pending[q2] != s.pending[q] by {
        assert(s.pending.contains_key(q2) && q2 != q);
    }
}

/// A resolved or failed identity keeps its state through every later step:
/// a request for any identity, a recorded send, or any response.
pub proof fn settled_identity_stays_settled(
    s: ManagerView,
    id: KeyIdentity,
    other: KeyIdentity,
    waiter: u64,
    cmd: u8,
    data: Seq<u8>,
)
    requires
        view_wf(s),
        s.cache.contains_key(id),
        !(s.cache[id] is Pending),
    ensures
        after_request(s, other, waiter).cache.contains_key(id),
        after_request(s, other, waiter).cache[id] == s.cache[id],
        after_sent(s, other, waiter).cache.contains_key(id),
        after_sent(s, other, waiter).cache[id] == s.cache[id],
        after_handle(s, cmd, data).cache.contains_key(id),
        after_handle(s, cmd, data).cache[id] == s.cache[id],
{
    if data.len() >= 4 && s.pending.contains_key(be_u32(data)) {
        assert(s.cache[s.pending[be_u32(data)]] is Pending);
    }
}

/// A resolved identity answers a request with its key material at once and
/// sends nothing.
pub proof fn resolved_identity_answers_from_cache(s: ManagerView, id: KeyIdentity, waiter: u64, key: Seq<u8>)
    requires
        s.cache.contains_key(id),
        s.cache[id] == KeyState::Resolved(key),
    ensures
        request_answer(s, id) == RequestAnswer::Key(key),
        after_request(s, id, waiter) == s,
{
}

/// A failed identity answers a request with the failure at once and sends
/// nothing.
pub proof fn failed_identity_answers_from_cache(s: ManagerView, id: KeyIdentity, waiter: u64)
    requires
        s.cache.contains_key(id),
        s.cache[id] == KeyState::Failed,
    ensures
        request_answer(s, id) == RequestAnswer::Failure,
        after_request(s, id, waiter) == s,
{
}

/// A response whose sequence id is not in flight changes nothing and is no
/// error.
pub proof fn unmatched_response_is_ignored(s: ManagerView, cmd: u8, data: Seq<u8>)
    requires
        data.len() >= 4,
        !s.pending.contains_key(be_u32(data)),
    ensures
        after_handle(s, cmd, data) == s,
        handle_answer(s, cmd, data) == HandleAnswer::Ignored,
{
}

/// Once a response for a sequence id was taken, a second response with that
/// id changes nothing and is no error.
pub proof fn consumed_sequence_is_ignored(s: ManagerView, cmd: u8, data: Seq<u8>, cmd2: u8, data2: Seq<u8>)
    requires
        view_wf(s),
        data.len() >= 4,
        data2.len() >= 4,
        be_u32(data2) == be_u32(data),
        s.pending.contains_key(be_u32(data)),
        cmd == CMD_KEY_FAILED || (cmd == CMD_KEY_OK && data.len() >= 20),
    ensures
        ({
            let after = after_handle(s, cmd, data);
            &&& after_handle(after, cmd2, data2) == after
            &&& handle_answer(after, cmd2, data2) == HandleAnswer::Ignored
        }),
{
}

} // verus!
