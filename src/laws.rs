//! Properties of the handshake that hold across several operations.
use vstd::prelude::*;

use crate::packet::{
    after_recv, after_release, after_send, after_terminate, recv_result, send_outcome,
    sender_wakes, BufferHeader, Packet, RecvStep, SendOutcome, State, TaskId,
};
use crate::pipe::is_first_ready;
use crate::packet::is_ready;

verus! {

/// A buffer header after `k` of its references have been dropped.
pub open spec fn release_times(b: BufferHeader, k: nat) -> BufferHeader
    decreases k,
{
    if k == 0 {
        b
    } else {
        after_release(release_times(b, (k - 1) as nat))
    }
}

/// A message sent once on a fresh packet is received exactly once: the send
/// needs to wake nobody, the receive yields that very message, and the slot
/// is empty afterwards.
pub proof fn lemma_message_delivered<T>(p: Packet<T>, v: T, this: TaskId)
    requires
        p.header.state == State::Empty,
        p.payload is None,
    ensures
        send_outcome(p.header) == SendOutcome::Delivered,
        recv_result(after_send(p, v)) == RecvStep::Received(v),
        after_recv(after_send(p, v), this).payload is None,
        after_recv(after_send(p, v), this).header.state == State::Empty,
{
}

/// When the receiver polls first and blocks, the send wakes exactly that
/// receiver, and its next poll yields the message.
pub proof fn lemma_blocked_receiver_woken<T>(p: Packet<T>, v: T, this: TaskId)
    requires
        p.header.state == State::Empty,
        p.payload is None,
    ensures
        recv_result(p) == RecvStep::<T>::Wait,
        send_outcome(after_recv(p, this).header) == SendOutcome::Wake(this),
        recv_result(after_send(after_recv(p, this), v)) == RecvStep::Received(v),
{
}

/// A sender that closes its packet without sending makes the receive report
/// that no message will come, whether or not the receiver was already
/// waiting; a waiting receiver is woken.
pub proof fn lemma_closed_sender_reported<T>(p: Packet<T>, this: TaskId)
    requires
        p.header.state == State::Empty,
        p.payload is None,
    ensures
        sender_wakes(p.header) is None,
        recv_result(after_terminate(p)) == RecvStep::<T>::Closed,
        sender_wakes(after_recv(p, this).header) == Some(this),
        recv_result(after_terminate(after_recv(p, this))) == RecvStep::<T>::Closed,
{
}

/// Once the receiver has closed its packet, a send is still allowed, and
/// the message it stores is dropped: nobody is woken and nothing will ever
/// read it.
pub proof fn lemma_send_after_receiver_closed<T>(p: Packet<T>, v: T)
    requires
        p.header.state == State::Empty,
        p.payload is None,
    ensures
        after_terminate(p).header.state != State::Full,
        after_terminate(p).payload is None,
        send_outcome(after_terminate(p).header) == SendOutcome::Discarded,
{
}

/// A buffer referenced `n` times is released by the `n`-th drop of a
/// reference and by no earlier one, whichever endpoint drops first.
pub proof fn lemma_released_exactly_once(b: BufferHeader, k: nat)
    requires
        !b.freed,
        b.ref_count >= 1,
        k <= b.ref_count,
    ensures
        release_times(b, k).ref_count == b.ref_count - k,
        release_times(b, k).freed == (k == b.ref_count),
    decreases k,
{
    if k > 0 {
        lemma_released_exactly_once(b, (k - 1) as nat);
    }
}

/// When exactly one of the watched packets is ready, waiting on them picks
/// that one.
pub proof fn lemma_only_ready_chosen(s: Seq<State>, k: int)
    requires
        0 <= k < s.len(),
        is_ready(s[k]),
        forall|j: int| 0 <= j < s.len() && j != k ==> !is_ready(#[trigger] s[j]),
    ensures
        is_first_ready(s, k),
        forall|r: int| #[trigger] is_first_ready(s, r) ==> r == k,
{
}

} // verus!
