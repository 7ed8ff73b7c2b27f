//! The packet: a state cell plus a one-message payload slot, and the
//! reference-counted header of the buffer that packets live in.
use vstd::prelude::*;

use crate::atomics::{atomic_add_acq, atomic_sub_rel, swap_state_acq, swap_state_rel};

verus! {

/// Where a packet stands in its one-message handshake.
#[derive(PartialEq, Eq, Structural, Clone, Copy, Debug)]
pub enum State {
    Empty,
    Full,
    Blocked,
    Terminated,
}

/// Identifies an execution context that can block on a packet and be woken.
pub type TaskId = u64;

/// The part of a packet that both endpoints touch.
#[derive(Clone, Copy, Debug)]
pub struct PacketHeader {
    pub state: State,
    /// The context waiting on this packet; meaningful while `Blocked`.
    pub blocked_task: Option<TaskId>,
    /// The buffer this packet lives in, once it has been placed in one.
    pub buffer: Option<usize>,
}

/// A packet header together with its single payload slot.
pub struct Packet<T> {
    pub header: PacketHeader,
    pub payload: Option<T>,
}

/// What a sender must do after storing its message.
#[derive(PartialEq, Eq, Structural, Clone, Copy, Debug)]
pub enum SendOutcome {
    /// The receiver will find the message by itself.
    Delivered,
    /// The receiver sleeps on the packet: signal this context.
    Wake(TaskId),
    /// The receiver is gone; the message will never be observed.
    Discarded,
}

/// One poll of a receive.
#[derive(Debug)]
pub enum RecvStep<T> {
    /// The message, taken out of the slot.
    Received(T),
    /// The sender closed the packet without sending.
    Closed,
    /// Nothing yet: the packet is marked blocked on the caller, who should
    /// yield or sleep and poll again.
    Wait,
}

/// The state a packet is left in once a waiter withdraws from it.
pub open spec fn settled(s: State) -> State {
    if s == State::Blocked { State::Empty } else { s }
}

/// True when a receive on a packet in state `s` would not have to wait.
pub open spec fn is_ready(s: State) -> bool {
    s == State::Full || s == State::Terminated
}

/// What `send` tells the sender, given the header it found.
pub open spec fn send_outcome(h: PacketHeader) -> SendOutcome {
    match h.state {
        State::Blocked => match h.blocked_task {
            Some(t) => SendOutcome::Wake(t),
            None => SendOutcome::Delivered,
        },
        State::Terminated => SendOutcome::Discarded,
        _ => SendOutcome::Delivered,
    }
}

/// The packet after a message `v` has been stored in it.
pub open spec fn after_send<T>(p: Packet<T>, v: T) -> Packet<T> {
    Packet {
        header: PacketHeader { state: State::Full, ..p.header },
        payload: Some(v),
    }
}

/// What one receive poll on `p` returns.
pub open spec fn recv_result<T>(p: Packet<T>) -> RecvStep<T> {
    match p.header.state {
        State::Full => RecvStep::Received(p.payload.unwrap()),
        State::Terminated => RecvStep::Closed,
        _ => RecvStep::Wait,
    }
}

/// The packet after one receive poll by `this`.
pub open spec fn after_recv<T>(p: Packet<T>, this: TaskId) -> Packet<T> {
    if p.header.state == State::Full {
        Packet {
            header: PacketHeader { state: State::Empty, blocked_task: Some(this), ..p.header },
            payload: None,
        }
    } else if p.header.state == State::Terminated {
        Packet {
            header: PacketHeader { blocked_task: Some(this), ..p.header },
            payload: p.payload,
        }
    } else {
        Packet {
            header: PacketHeader { state: State::Blocked, blocked_task: Some(this), ..p.header },
            payload: p.payload,
        }
    }
}

/// The context a closing sender must wake, given the header it found.
pub open spec fn sender_wakes(h: PacketHeader) -> Option<TaskId> {
    if h.state == State::Blocked { h.blocked_task } else { None }
}

/// The packet after one of its endpoints closed it.
pub open spec fn after_terminate<T>(p: Packet<T>) -> Packet<T> {
    Packet {
        header: PacketHeader { state: State::Terminated, ..p.header },
        payload: None,
    }
}

/// A fresh packet that has not been placed in a buffer yet.
pub fn mk_packet<T>() -> (r: Packet<T>)
    ensures
        r.header.state == State::Empty,
        r.header.blocked_task is None,
        r.header.buffer is None,
        r.payload is None,
{
    Packet { header: PacketHeader::new(), payload: None }
}

impl PacketHeader {
    /// An empty header that nobody waits on.
    pub fn new() -> (r: PacketHeader)
        ensures
            r.state == State::Empty,
            r.blocked_task is None,
            r.buffer is None,
    {
        PacketHeader { state: State::Empty, blocked_task: None, buffer: None }
    }

    /// Records `this` as the waiting context, marks the packet blocked and
    /// returns the state it had.
    pub fn mark_blocked(&mut self, this: TaskId) -> (r: State)
        ensures
            r == old(self).state,
            final(self).state == State::Blocked,
            final(self).blocked_task == Some(this),
            final(self).buffer == old(self).buffer,
    {
        self.blocked_task = Some(this);
        swap_state_acq(&mut self.state, State::Blocked)
    }

    /// Withdraws the waiter: a blocked packet goes back to empty, any other
    /// state is kept.
    pub fn unblock(&mut self)
        requires
            old(self).state == State::Blocked ==> old(self).blocked_task is Some,
        ensures
            final(self).state == settled(old(self).state),
            final(self).blocked_task is None,
            final(self).buffer == old(self).buffer,
    {
        self.blocked_task = None;
        match swap_state_acq(&mut self.state, State::Empty) {
            State::Terminated => {
                self.state = State::Terminated;
            },
            State::Full => {
                self.state = State::Full;
            },
            _ => {},
        }
    }
}

impl<T> Packet<T> {
    /// Places the packet in buffer `b`.
    pub fn set_buffer(&mut self, b: usize)
        ensures
            final(self).header.buffer == Some(b),
            final(self).header.state == old(self).header.state,
            final(self).header.blocked_task == old(self).header.blocked_task,
            final(self).payload == old(self).payload,
    {
        self.header.buffer = Some(b);
    }

    /// Stores a message and publishes it; says whom to wake, if anyone.
    pub fn send(&mut self, payload: T) -> (r: SendOutcome)
        requires
            old(self).header.state != State::Full,
            old(self).payload is None,
        ensures
            r == send_outcome(old(self).header),
            *final(self) == after_send(*old(self), payload),
    {
        self.payload = Some(payload);
        let prev = swap_state_rel(&mut self.header.state, State::Full);
        match prev {
            State::Blocked => match self.header.blocked_task {
                Some(t) => SendOutcome::Wake(t),
                None => SendOutcome::Delivered,
            },
            State::Terminated => SendOutcome::Discarded,
            _ => SendOutcome::Delivered,
        }
    }

    /// One poll of a receive by context `this`. `first` says whether this
    /// is the first poll of the receive, when nobody else may be blocked.
    pub fn try_recv_step(&mut self, this: TaskId, first: bool) -> (r: RecvStep<T>)
        requires
            !(first && old(self).header.state == State::Blocked),
            old(self).header.state == State::Full ==> old(self).payload is Some,
        ensures
            r == recv_result(*old(self)),
            *final(self) == after_recv(*old(self), this),
    {
        self.header.blocked_task = Some(this);
        let prev = swap_state_acq(&mut self.header.state, State::Blocked);
        match prev {
            State::Full => {
                let v = self.payload.take();
                self.header.state = State::Empty;
                match v {
                    Some(v) => RecvStep::Received(v),
                    None => RecvStep::Closed,
                }
            },
            State::Terminated => {
                self.header.state = State::Terminated;
                RecvStep::Closed
            },
            _ => RecvStep::Wait,
        }
    }

    /// True when a receive would not have to wait.
    pub fn peek(&self) -> (r: bool)
        requires
            self.header.state != State::Blocked,
        ensures
            r == is_ready(self.header.state),
    {
        match self.header.state {
            State::Empty => false,
            _ => true,
        }
    }

    /// Closes the packet from the sending side; returns the context that
    /// sleeps on it, which must be woken.
    pub fn sender_terminate(&mut self) -> (r: Option<TaskId>)
        requires
            old(self).header.state != State::Full,
            old(self).header.state == State::Blocked ==> old(self).header.blocked_task is Some,
        ensures
            r == sender_wakes(old(self).header),
            *final(self) == after_terminate(*old(self)),
    {
        let prev = swap_state_rel(&mut self.header.state, State::Terminated);
        self.payload = None;
        if prev == State::Blocked {
            self.header.blocked_task
        } else {
            None
        }
    }

    /// Closes the packet from the receiving side, dropping any message in it.
    pub fn receiver_terminate(&mut self)
        requires
            old(self).header.state != State::Blocked,
        ensures
            *final(self) == after_terminate(*old(self)),
    {
        let _prev = swap_state_rel(&mut self.header.state, State::Terminated);
        self.payload = None;
    }
}

/// The reference count at the head of every buffer.
#[derive(Clone, Copy, Debug)]
pub struct BufferHeader {
    pub ref_count: i64,
    /// Set once, when the last reference is dropped.
    pub freed: bool,
}

/// The buffer header after one reference is dropped.
pub open spec fn after_release(b: BufferHeader) -> BufferHeader {
    BufferHeader { ref_count: (b.ref_count - 1) as i64, freed: b.ref_count == 1 }
}

impl BufferHeader {
    /// The header of a buffer that nobody references yet.
    pub open spec fn new_spec() -> BufferHeader {
        BufferHeader { ref_count: 0, freed: false }
    }

    /// A buffer that nobody references yet.
    pub fn new() -> (r: BufferHeader)
        ensures
            r == BufferHeader::new_spec(),
    {
        BufferHeader { ref_count: 0, freed: false }
    }

    /// Takes one more reference on the buffer.
    pub fn acquire(&mut self)
        requires
            !old(self).freed,
            0 <= old(self).ref_count < i64::MAX,
        ensures
            final(self).ref_count == old(self).ref_count + 1,
            !final(self).freed,
    {
        atomic_add_acq(&mut self.ref_count, 1);
    }

    /// Drops one reference; returns true when it was the last one. The
    /// buffer is then marked freed: this is the one place where that
    /// happens, and no endpoint refers to it afterwards.
    pub fn release(&mut self) -> (r: bool)
        requires
            !old(self).freed,
            old(self).ref_count >= 1,
        ensures
            r == (old(self).ref_count == 1),
            *final(self) == after_release(*old(self)),
    {
        let prev = atomic_sub_rel(&mut self.ref_count, 1);
        if prev == 1 {
            self.freed = true;
            true
        } else {
            false
        }
    }
}

} // verus!
