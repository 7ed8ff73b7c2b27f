//! The packet table shared by all endpoints, and the endpoint handles.
//!
//! Every packet and every buffer lives in a `Pipes` table. An endpoint
//! handle names one packet; handles cannot be copied, so each side of a
//! packet has exactly one owner, and each operation consumes the handle it
//! acts on (or hands it back when it has to wait).
use vstd::prelude::*;

use crate::packet::{
    settled, after_recv, after_release, after_send, after_terminate, is_ready, mk_packet, recv_result,
    send_outcome, sender_wakes, BufferHeader, Packet, RecvStep, SendOutcome, State, TaskId,
};

verus! {

/// All packets and buffers of a set of conversations. A buffer whose last
/// reference is dropped is marked freed and never used again; its slot in
/// the table is not reused.
pub struct Pipes<T> {
    packets: Vec<Packet<T>>,
    buffers: Vec<BufferHeader>,
}

/// The sending end of one packet: it can send exactly one message.
pub struct SendPacket {
    id: usize,
}

/// The receiving end of one packet: it can receive exactly one message.
pub struct RecvPacket {
    id: usize,
    /// Set once a poll has left the packet blocked on its owner.
    waiting: bool,
}

/// The outcome of a receive poll that consumes its endpoint.
pub enum TryRecv<T> {
    /// The message.
    Received(T),
    /// The sender closed the packet without sending.
    Closed,
    /// No message yet: the packet is blocked on the caller, who gets the
    /// endpoint back to poll again once woken.
    Pending(RecvPacket),
}

/// `k` is the first index of `s` whose packet would not make a receive wait.
pub open spec fn is_first_ready(s: Seq<State>, k: int) -> bool {
    &&& 0 <= k < s.len()
    &&& is_ready(s[k])
    &&& forall|j: int| 0 <= j < k ==> !is_ready(#[trigger] s[j])
}

/// `q` is one of the listed packets.
pub open spec fn lists(ids: Seq<usize>, q: int) -> bool {
    exists|j: int| 0 <= j < ids.len() && #[trigger] ids[j] as int == q
}

/// No packet of `s` is ready.
pub open spec fn none_ready(s: Seq<State>) -> bool {
    forall|j: int| 0 <= j < s.len() ==> !is_ready(#[trigger] s[j])
}

impl SendPacket {
    /// The packet this endpoint sends on.
    pub closed spec fn id(&self) -> int {
        self.id as int
    }

    /// The packet this endpoint sends on; also the token a woken waiter
    /// receives for it.
    pub fn header(&self) -> (r: usize)
        ensures
            r == self.id(),
    {
        self.id
    }
}

impl RecvPacket {
    /// The packet this endpoint receives on.
    pub closed spec fn id(&self) -> int {
        self.id as int
    }

    /// True once a poll has left the packet blocked on this endpoint's owner.
    pub closed spec fn waiting(&self) -> bool {
        self.waiting
    }

    /// The packet this endpoint receives on; also the token a sender wakes
    /// a waiter with.
    pub fn header(&self) -> (r: usize)
        ensures
            r == self.id(),
    {
        self.id
    }
}

impl<T> Pipes<T> {
    /// The packets, by index.
    pub closed spec fn packet_seq(&self) -> Seq<Packet<T>> {
        self.packets@
    }

    /// The buffer headers, by index.
    pub closed spec fn buffer_seq(&self) -> Seq<BufferHeader> {
        self.buffers@
    }

    /// Packet `i`.
    pub open spec fn packet(&self, i: int) -> Packet<T> {
        self.packet_seq()[i]
    }

    /// The state of packet `i`.
    pub open spec fn state(&self, i: int) -> State {
        self.packet(i).header.state
    }

    /// The buffer that packet `i` lives in.
    pub open spec fn buffer_of(&self, i: int) -> int {
        self.packet(i).header.buffer.unwrap() as int
    }

    /// Every packet lives in a buffer of the table.
    pub open spec fn wf(&self) -> bool {
        forall|i: int|
            0 <= i < self.packet_seq().len() ==> {
                &&& (#[trigger] self.packet(i)).header.buffer is Some
                &&& self.buffer_of(i) < self.buffer_seq().len()
            }
    }

    /// The buffer of packet `i` is live and referenced.
    pub open spec fn buffer_live(&self, i: int) -> bool {
        &&& 0 <= i < self.packet_seq().len()
        &&& !self.buffer_seq()[self.buffer_of(i)].freed
        &&& self.buffer_seq()[self.buffer_of(i)].ref_count >= 1
    }

    /// `p` may send: its packet holds no message and, when blocked, records
    /// its waiter.
    pub open spec fn can_send(&self, p: &SendPacket) -> bool {
        &&& self.buffer_live(p.id())
        &&& self.state(p.id()) != State::Full
        &&& self.packet(p.id()).payload is None
        &&& self.state(p.id()) == State::Blocked ==> self.packet(p.id()).header.blocked_task is Some
    }

    /// `p` may poll: a full packet holds its message, and the packet is
    /// blocked only on a previous poll through `p`.
    pub open spec fn can_recv(&self, p: &RecvPacket) -> bool {
        &&& self.buffer_live(p.id())
        &&& self.state(p.id()) == State::Full ==> self.packet(p.id()).payload is Some
        &&& self.state(p.id()) == State::Blocked ==> {
            &&& p.waiting()
            &&& self.packet(p.id()).header.blocked_task is Some
        }
    }

    /// An empty table.
    pub fn new() -> (r: Pipes<T>)
        ensures
            r.wf(),
            r.packet_seq().len() == 0,
            r.buffer_seq().len() == 0,
    {
        Pipes { packets: Vec::new(), buffers: Vec::new() }
    }

    /// Drops one reference on buffer `b`; true when it was the last.
    fn release_buffer(&mut self, b: usize) -> (r: bool)
        requires
            b < old(self).buffers@.len(),
            !old(self).buffers@[b as int].freed,
            old(self).buffers@[b as int].ref_count >= 1,
        ensures
            r == (old(self).buffers@[b as int].ref_count == 1),
            final(self).buffers@ == old(self).buffers@.update(
                b as int,
                after_release(old(self).buffers@[b as int]),
            ),
            final(self).packets@ == old(self).packets@,
    {
        self.buffers[b].release()
    }

    /// A fresh packet in a buffer of its own, with its two endpoints; the
    /// buffer holds one reference for each.
    pub fn entangle(&mut self) -> (r: (SendPacket, RecvPacket))
        requires
            old(self).wf(),
            old(self).packet_seq().len() < usize::MAX,
            old(self).buffer_seq().len() < usize::MAX,
        ensures
            final(self).wf(),
            r.0.id() == old(self).packet_seq().len(),
            r.1.id() == old(self).packet_seq().len(),
            !r.1.waiting(),
            final(self).packet_seq() == old(self).packet_seq().push(
                Packet {
                    header: crate::packet::PacketHeader {
                        state: State::Empty,
                        blocked_task: None,
                        buffer: Some(old(self).buffer_seq().len() as usize),
                    },
                    payload: None,
                },
            ),
            final(self).buffer_seq() == old(self).buffer_seq().push(
                BufferHeader { ref_count: 2, freed: false },
            ),
    {
        let id = self.new_buffer(1);
        let ghost mid = *self;
        proof {
            assert(self.packet(id as int).header.buffer == Some(old(self).buffer_seq().len() as usize));
        }
        let s = self.send_packet(id);
        let r = self.recv_packet(id);
        proof {
            assert(self.buffer_seq() =~= old(self).buffer_seq().push(
                BufferHeader { ref_count: 2, freed: false },
            ));
            assert(self.packet_seq() == mid.packet_seq());
            assert(mid.packet_seq().subrange(0, id as int) == old(self).packet_seq());
            assert(self.packet_seq() =~= old(self).packet_seq().push(mid.packet(id as int)));
        }
        (s, r)
    }

    /// Sends `payload` on `p`'s packet and gives up `p`; says whom to wake.
    pub fn send(&mut self, p: SendPacket, payload: T) -> (r: SendOutcome)
        requires
            old(self).wf(),
            old(self).can_send(&p),
        ensures
            final(self).wf(),
            r == send_outcome(old(self).packet(p.id()).header),
            final(self).packet_seq() == old(self).packet_seq().update(
                p.id(),
                after_send(old(self).packet(p.id()), payload),
            ),
            final(self).buffer_seq() == old(self).buffer_seq().update(
                old(self).buffer_of(p.id()),
                after_release(old(self).buffer_seq()[old(self).buffer_of(p.id())]),
            ),
    {
        let i = p.id;
        let r = self.packets[i].send(payload);
        let b = match self.packets[i].header.buffer {
            Some(b) => b,
            None => 0,
        };
        self.release_buffer(b);
        proof {
            assert forall|j: int| 0 <= j < self.packet_seq().len() implies {
                &&& (#[trigger] self.packet(j)).header.buffer is Some
                &&& self.buffer_of(j) < self.buffer_seq().len()
            } by {
                assert(old(self).packet(j).header.buffer == self.packet(j).header.buffer);
            }
        }
        r
    }

    /// The table stays well formed when no packet moves to another buffer
    /// and no buffer is added or removed.
    proof fn lemma_wf_kept(a: &Pipes<T>, b: &Pipes<T>)
        requires
            a.wf(),
            a.packet_seq().len() == b.packet_seq().len(),
            a.buffer_seq().len() == b.buffer_seq().len(),
            forall|i: int|
                0 <= i < a.packet_seq().len() ==> (#[trigger] a.packet(i)).header.buffer
                    == b.packet(i).header.buffer,
        ensures
            b.wf(),
    {
        assert forall|i: int| 0 <= i < b.packet_seq().len() implies {
            &&& (#[trigger] b.packet(i)).header.buffer is Some
            &&& b.buffer_of(i) < b.buffer_seq().len()
        } by {
            assert(a.packet(i).header.buffer == b.packet(i).header.buffer);
        }
    }

    /// One poll on `p`'s packet by context `this`. A message or a closed
    /// packet consumes `p` and drops its reference on the buffer; otherwise
    /// the packet is left blocked on `this` and `p` comes back.
    pub fn try_recv(&mut self, p: RecvPacket, this: TaskId) -> (r: TryRecv<T>)
        requires
            old(self).wf(),
            old(self).can_recv(&p),
        ensures
            final(self).wf(),
            final(self).packet_seq() == old(self).packet_seq().update(
                p.id(),
                after_recv(old(self).packet(p.id()), this),
            ),
            match recv_result(old(self).packet(p.id())) {
                RecvStep::Received(v) => r matches TryRecv::Received(w) && w == v,
                RecvStep::Closed => r is Closed,
                RecvStep::Wait => r matches TryRecv::Pending(q) && q.id() == p.id() && q.waiting(),
            },
            r is Pending ==> final(self).buffer_seq() == old(self).buffer_seq(),
            r !is Pending ==> final(self).buffer_seq() == old(self).buffer_seq().update(
                old(self).buffer_of(p.id()),
                after_release(old(self).buffer_seq()[old(self).buffer_of(p.id())]),
            ),
    {
        let i = p.id;
        let first = !p.waiting;
        let step = self.packets[i].try_recv_step(this, first);
        let b = match self.packets[i].header.buffer {
            Some(b) => b,
            None => 0,
        };
        proof {
            Self::lemma_wf_kept(old(self), self);
        }
        match step {
            RecvStep::Received(v) => {
                self.release_buffer(b);
                proof {
                    Self::lemma_wf_kept(old(self), self);
                }
                TryRecv::Received(v)
            },
            RecvStep::Closed => {
                self.release_buffer(b);
                proof {
                    Self::lemma_wf_kept(old(self), self);
                }
                TryRecv::Closed
            },
            RecvStep::Wait => TryRecv::Pending(RecvPacket { id: i, waiting: true }),
        }
    }

    /// Receives the message waiting in `p`'s packet.
    pub fn recv(&mut self, p: RecvPacket, this: TaskId) -> (r: T)
        requires
            old(self).wf(),
            old(self).can_recv(&p),
            old(self).state(p.id()) == State::Full,
        ensures
            final(self).wf(),
            Some(r) == old(self).packet(p.id()).payload,
            final(self).packet_seq() == old(self).packet_seq().update(
                p.id(),
                after_recv(old(self).packet(p.id()), this),
            ),
            final(self).buffer_seq() == old(self).buffer_seq().update(
                old(self).buffer_of(p.id()),
                after_release(old(self).buffer_seq()[old(self).buffer_of(p.id())]),
            ),
    {
        let got = match self.try_recv(p, this) {
            TryRecv::Received(v) => Some(v),
            _ => None,
        };
        got.unwrap()
    }

    /// True when a poll on `p` would not have to wait.
    pub fn peek(&self, p: &RecvPacket) -> (r: bool)
        requires
            self.wf(),
            0 <= p.id() < self.packet_seq().len(),
            self.state(p.id()) != State::Blocked,
        ensures
            r == is_ready(self.state(p.id())),
    {
        self.packets[p.id].peek()
    }

    /// Closes `p`'s packet from the sending side and drops `p`'s reference
    /// on the buffer; returns the context that must be woken, if any.
    pub fn close_send(&mut self, p: SendPacket) -> (r: Option<TaskId>)
        requires
            old(self).wf(),
            old(self).can_send(&p),
        ensures
            final(self).wf(),
            r == sender_wakes(old(self).packet(p.id()).header),
            final(self).packet_seq() == old(self).packet_seq().update(
                p.id(),
                after_terminate(old(self).packet(p.id())),
            ),
            final(self).buffer_seq() == old(self).buffer_seq().update(
                old(self).buffer_of(p.id()),
                after_release(old(self).buffer_seq()[old(self).buffer_of(p.id())]),
            ),
    {
        let i = p.id;
        let r = self.packets[i].sender_terminate();
        let b = match self.packets[i].header.buffer {
            Some(b) => b,
            None => 0,
        };
        self.release_buffer(b);
        proof {
            Self::lemma_wf_kept(old(self), self);
        }
        r
    }

    /// Closes `p`'s packet from the receiving side, dropping any message in
    /// it, and drops `p`'s reference on the buffer.
    pub fn close_recv(&mut self, p: RecvPacket)
        requires
            old(self).wf(),
            old(self).can_recv(&p),
            old(self).state(p.id()) != State::Blocked,
        ensures
            final(self).wf(),
            final(self).packet_seq() == old(self).packet_seq().update(
                p.id(),
                after_terminate(old(self).packet(p.id())),
            ),
            final(self).buffer_seq() == old(self).buffer_seq().update(
                old(self).buffer_of(p.id()),
                after_release(old(self).buffer_seq()[old(self).buffer_of(p.id())]),
            ),
    {
        let i = p.id;
        self.packets[i].receiver_terminate();
        let b = match self.packets[i].header.buffer {
            Some(b) => b,
            None => 0,
        };
        self.release_buffer(b);
        proof {
            Self::lemma_wf_kept(old(self), self);
        }
    }

    /// The states of the listed packets, in list order.
    pub open spec fn states_of(&self, ids: Seq<usize>) -> Seq<State> {
        ids.map_values(|id: usize| self.state(id as int))
    }

    /// The listed packets exist, are listed once each, and nobody waits on
    /// any of them yet.
    pub open spec fn watchable(&self, ids: Seq<usize>) -> bool {
        &&& forall|j: int|
            0 <= j < ids.len() ==> {
                &&& #[trigger] ids[j] < self.packet_seq().len()
                &&& self.state(ids[j] as int) != State::Blocked
            }
        &&& forall|j: int, l: int| 0 <= j < l < ids.len() ==> ids[j] != ids[l]
    }

    /// Marks every listed packet blocked on `this`, in list order. When one
    /// of them already holds a message or is closed, the first such index is
    /// returned and every listed packet is put back as it was, with no waiter
    /// recorded. Otherwise all of them stay blocked on `this`, and the caller
    /// sleeps until a wake names one of them (see `wake_many`).
    pub fn wait_many(&mut self, ids: &Vec<usize>, this: TaskId) -> (r: Option<usize>)
        requires
            old(self).wf(),
            old(self).watchable(ids@),
        ensures
            final(self).wf(),
            final(self).buffer_seq() == old(self).buffer_seq(),
            final(self).packet_seq().len() == old(self).packet_seq().len(),
            match r {
                Some(k) => is_first_ready(old(self).states_of(ids@), k as int),
                None => none_ready(old(self).states_of(ids@)),
            },
            forall|q: int|
                0 <= q < old(self).packet_seq().len() && !lists(ids@, q)
                    ==> #[trigger] final(self).packet(q) == old(self).packet(q),
            forall|j: int|
                0 <= j < ids@.len() ==> {
                    &&& (#[trigger] final(self).packet(ids@[j] as int)).payload
                        == old(self).packet(ids@[j] as int).payload
                    &&& final(self).packet(ids@[j] as int).header.buffer
                        == old(self).packet(ids@[j] as int).header.buffer
                    &&& r is Some ==> final(self).state(ids@[j] as int) == old(self).state(
                        ids@[j] as int,
                    )
                    &&& r is Some ==> final(self).packet(ids@[j] as int).header.blocked_task is None
                    &&& r is None ==> final(self).state(ids@[j] as int) == State::Blocked
                    &&& r is None ==> final(self).packet(ids@[j] as int).header.blocked_task
                        == Some(this)
                },
    {
        let n = ids.len();
        let mut i: usize = 0;
        let mut found: Option<usize> = None;
        while i < n && found.is_none()
            invariant
                n == ids@.len(),
                0 <= i <= n,
                old(self).wf(),
                old(self).watchable(ids@),
                self.buffer_seq() == old(self).buffer_seq(),
                self.packet_seq().len() == old(self).packet_seq().len(),
                found is None ==> forall|j: int| 0 <= j < i ==> !is_ready(#[trigger] old(self).states_of(ids@)[j]),
                found matches Some(k) ==> k + 1 == i && is_first_ready(old(self).states_of(ids@), k as int),
                forall|q: int|
                    0 <= q < old(self).packet_seq().len() && !lists(ids@, q)
                        ==> #[trigger] self.packet(q) == old(self).packet(q),
                forall|j: int|
                    0 <= j < n ==> {
                        &&& (#[trigger] self.packet(ids@[j] as int)).payload
                            == old(self).packet(ids@[j] as int).payload
                        &&& self.packet(ids@[j] as int).header.buffer
                            == old(self).packet(ids@[j] as int).header.buffer
                        &&& j >= i ==> self.packet(ids@[j] as int) == old(self).packet(ids@[j] as int)
                        &&& j < i ==> self.packet(ids@[j] as int).header.blocked_task == Some(this)
                        &&& (j < i && (found is None || j + 1 < i)) ==> self.state(ids@[j] as int) == State::Blocked
                        &&& (found is Some && j + 1 == i) ==> self.state(ids@[j] as int) == old(self).state(ids@[j] as int)
                    },
            decreases n - i,
        {
            let id = ids[i];
            let ghost pre = *self;
            proof {
                assert(self.packet(ids@[i as int] as int) == old(self).packet(ids@[i as int] as int));
            }
            let prev = self.packets[id].header.mark_blocked(this);
            if prev == State::Full || prev == State::Terminated {
                self.packets[id].header.state = prev;
                found = Some(i);
            }
            i = i + 1;
            proof {
                assert(old(self).states_of(ids@)[i - 1] == prev);
                assert forall|j: int| 0 <= j < n && j != i - 1 implies #[trigger] self.packet(ids@[j] as int) == pre.packet(ids@[j] as int) by {
                    assert(ids@[j] != ids@[i - 1]);
                }
                assert forall|q: int|
                    0 <= q < old(self).packet_seq().len() && !lists(ids@, q)
                        implies #[trigger] self.packet(q) == old(self).packet(q) by {
                    if q == id as int {
                        assert(lists(ids@, ids@[i - 1] as int));
                    } else {
                        assert(self.packet(q) == pre.packet(q));
                        assert(pre.packet(q) == old(self).packet(q));
                    }
                }
            }
        }
        proof {
            Self::lemma_wf_listed(old(self), self, ids@);
        }
        match found {
            Some(k) => {
                let ghost mid = *self;
                self.unblock_all(ids);
                proof {
                    assert forall|j: int| 0 <= j < ids@.len() implies settled(
                        mid.state(#[trigger] ids@[j] as int),
                    ) == old(self).state(ids@[j] as int) by {
                        assert(mid.packet(ids@[j] as int).payload == old(self).packet(ids@[j] as int).payload);
                        if j < k {
                            assert(!is_ready(old(self).states_of(ids@)[j]));
                        }
                    }
                }
                Some(k)
            },
            None => None,
        }
    }

    /// Withdraws the caller from every listed packet: a blocked one goes
    /// back to empty, any other keeps its state.
    fn unblock_all(&mut self, ids: &Vec<usize>)
        requires
            old(self).wf(),
            forall|j: int|
                0 <= j < ids@.len() ==> {
                    &&& #[trigger] ids@[j] < old(self).packet_seq().len()
                    &&& old(self).state(ids@[j] as int) == State::Blocked
                        ==> old(self).packet(ids@[j] as int).header.blocked_task is Some
                },
            forall|j: int, l: int| 0 <= j < l < ids@.len() ==> ids@[j] != ids@[l],
        ensures
            final(self).wf(),
            final(self).buffer_seq() == old(self).buffer_seq(),
            final(self).packet_seq().len() == old(self).packet_seq().len(),
            forall|q: int|
                0 <= q < old(self).packet_seq().len() && !lists(ids@, q)
                    ==> #[trigger] final(self).packet(q) == old(self).packet(q),
            forall|j: int|
                0 <= j < ids@.len() ==> {
                    &&& (#[trigger] final(self).packet(ids@[j] as int)).payload
                        == old(self).packet(ids@[j] as int).payload
                    &&& final(self).packet(ids@[j] as int).header.buffer
                        == old(self).packet(ids@[j] as int).header.buffer
                    &&& final(self).state(ids@[j] as int) == settled(old(self).state(ids@[j] as int))
                    &&& final(self).packet(ids@[j] as int).header.blocked_task is None
                },
    {
        let n = ids.len();
        let mut i: usize = 0;
        while i < n
            invariant
                n == ids@.len(),
                0 <= i <= n,
                old(self).wf(),
                forall|j: int|
                    0 <= j < ids@.len() ==> {
                        &&& #[trigger] ids@[j] < old(self).packet_seq().len()
                        &&& old(self).state(ids@[j] as int) == State::Blocked
                            ==> old(self).packet(ids@[j] as int).header.blocked_task is Some
                    },
                forall|j: int, l: int| 0 <= j < l < ids@.len() ==> ids@[j] != ids@[l],
                self.buffer_seq() == old(self).buffer_seq(),
                self.packet_seq().len() == old(self).packet_seq().len(),
                forall|q: int|
                    0 <= q < old(self).packet_seq().len() && !lists(ids@, q)
                        ==> #[trigger] self.packet(q) == old(self).packet(q),
                forall|j: int|
                    0 <= j < n ==> {
                        &&& (#[trigger] self.packet(ids@[j] as int)).payload
                            == old(self).packet(ids@[j] as int).payload
                        &&& self.packet(ids@[j] as int).header.buffer
                            == old(self).packet(ids@[j] as int).header.buffer
                        &&& j >= i ==> self.packet(ids@[j] as int) == old(self).packet(ids@[j] as int)
                        &&& j < i ==> self.state(ids@[j] as int) == settled(old(self).state(ids@[j] as int))
                        &&& j < i ==> self.packet(ids@[j] as int).header.blocked_task is None
                    },
            decreases n - i,
        {
            let id = ids[i];
            let ghost pre = *self;
            proof {
                assert(self.packet(ids@[i as int] as int) == old(self).packet(ids@[i as int] as int));
            }
            self.packets[id].header.unblock();
            i = i + 1;
            proof {
                assert forall|j: int| 0 <= j < n && j != i - 1 implies #[trigger] self.packet(ids@[j] as int) == pre.packet(ids@[j] as int) by {
                    assert(ids@[j] != ids@[i - 1]);
                }
                assert forall|q: int|
                    0 <= q < old(self).packet_seq().len() && !lists(ids@, q)
                        implies #[trigger] self.packet(q) == old(self).packet(q) by {
                    if q == id as int {
                        assert(lists(ids@, ids@[i - 1] as int));
                    } else {
                        assert(self.packet(q) == pre.packet(q));
                        assert(pre.packet(q) == old(self).packet(q));
                    }
                }
            }
        }
        proof {
            Self::lemma_wf_listed(old(self), self, ids@);
        }
    }

    /// The table stays well formed when only listed packets changed, and
    /// none of them moved to another buffer.
    proof fn lemma_wf_listed(a: &Pipes<T>, b: &Pipes<T>, ids: Seq<usize>)
        requires
            a.wf(),
            a.packet_seq().len() == b.packet_seq().len(),
            a.buffer_seq().len() == b.buffer_seq().len(),
            forall|q: int|
                0 <= q < a.packet_seq().len() && !lists(ids, q) ==> #[trigger] b.packet(q)
                    == a.packet(q),
            forall|j: int|
                0 <= j < ids.len() ==> (#[trigger] b.packet(ids[j] as int)).header.buffer
                    == a.packet(ids[j] as int).header.buffer,
        ensures
            b.wf(),
    {
        assert forall|q: int| 0 <= q < a.packet_seq().len() implies (#[trigger] a.packet(
            q,
        )).header.buffer == b.packet(q).header.buffer by {
            if lists(ids, q) {
                let j = choose|j: int| 0 <= j < ids.len() && #[trigger] ids[j] as int == q;
                assert(b.packet(ids[j] as int).header.buffer == a.packet(ids[j] as int).header.buffer);
            } else {
                assert(b.packet(q) == a.packet(q));
            }
        }
        Self::lemma_wf_kept(a, b);
    }

    /// The listed packets exist, are listed once each, and record their
    /// waiter whenever they are blocked.
    pub open spec fn watched(&self, ids: Seq<usize>) -> bool {
        &&& forall|j: int|
            0 <= j < ids.len() ==> {
                &&& #[trigger] ids[j] < self.packet_seq().len()
                &&& self.state(ids[j] as int) == State::Blocked
                    ==> self.packet(ids[j] as int).header.blocked_task is Some
            }
        &&& forall|j: int, l: int| 0 <= j < l < ids.len() ==> ids[j] != ids[l]
    }

    /// Handles a wake carrying the token `event` while the caller sleeps on
    /// the listed packets. A token that names none of them is spurious:
    /// nothing changes and `None` comes back. Otherwise the caller withdraws
    /// from every listed packet and gets the index of the one that woke it.
    pub fn wake_many(&mut self, ids: &Vec<usize>, event: usize) -> (r: Option<usize>)
        requires
            old(self).wf(),
            old(self).watched(ids@),
            forall|j: int|
                0 <= j < ids@.len() && #[trigger] ids@[j] == event ==> is_ready(
                    old(self).state(event as int),
                ),
        ensures
            final(self).wf(),
            final(self).buffer_seq() == old(self).buffer_seq(),
            final(self).packet_seq().len() == old(self).packet_seq().len(),
            match r {
                Some(k) => k < ids@.len() && ids@[k as int] == event && is_ready(
                    final(self).state(event as int),
                ),
                None => !lists(ids@, event as int),
            },
            r is None ==> final(self).packet_seq() == old(self).packet_seq(),
            forall|q: int|
                0 <= q < old(self).packet_seq().len() && !lists(ids@, q)
                    ==> #[trigger] final(self).packet(q) == old(self).packet(q),
            forall|j: int|
                0 <= j < ids@.len() ==> {
                    &&& (#[trigger] final(self).packet(ids@[j] as int)).payload
                        == old(self).packet(ids@[j] as int).payload
                    &&& final(self).packet(ids@[j] as int).header.buffer
                        == old(self).packet(ids@[j] as int).header.buffer
                    &&& r is Some ==> final(self).state(ids@[j] as int) == settled(
                        old(self).state(ids@[j] as int),
                    )
                    &&& r is Some ==> final(self).packet(ids@[j] as int).header.blocked_task is None
                },
    {
        let n = ids.len();
        let mut i: usize = 0;
        while i < n
            invariant
                n == ids@.len(),
                0 <= i <= n,
                forall|j: int| 0 <= j < i ==> #[trigger] ids@[j] != event,
                *self == *old(self),
                old(self).wf(),
                old(self).watched(ids@),
                forall|j: int|
                    0 <= j < ids@.len() && #[trigger] ids@[j] == event ==> is_ready(
                        old(self).state(event as int),
                    ),
            decreases n - i,
        {
            if ids[i] == event {
                self.unblock_all(ids);
                proof {
                    assert(old(self).state(ids@[i as int] as int) != State::Blocked);
                }
                return Some(i);
            }
            i = i + 1;
        }
        None
    }

    /// Takes back the message of a packet whose buffer has been released: a
    /// message that a send stored after its receiver was gone, and that no
    /// endpoint will ever read.
    pub fn reclaim(&mut self, id: usize) -> (r: Option<T>)
        requires
            old(self).wf(),
            id < old(self).packet_seq().len(),
            old(self).buffer_seq()[old(self).buffer_of(id as int)].freed,
        ensures
            final(self).wf(),
            r == old(self).packet(id as int).payload,
            final(self).buffer_seq() == old(self).buffer_seq(),
            final(self).packet_seq() == old(self).packet_seq().update(
                id as int,
                Packet { header: old(self).packet(id as int).header, payload: None },
            ),
    {
        let r = self.packets[id].payload.take();
        proof {
            Self::lemma_wf_kept(old(self), self);
        }
        r
    }

    /// True when the buffer of packet `id` has been released.
    pub fn buffer_freed(&self, id: usize) -> (r: bool)
        requires
            self.wf(),
            id < self.packet_seq().len(),
        ensures
            r == self.buffer_seq()[self.buffer_of(id as int)].freed,
    {
        proof {
            assert(self.packet(id as int).header.buffer is Some);
        }
        match self.packets[id].header.buffer {
            Some(b) => self.buffers[b].freed,
            None => false,
        }
    }

    /// Adds a buffer that nobody references yet, holding `n` fresh packets;
    /// returns the index of its first packet.
    pub fn new_buffer(&mut self, n: usize) -> (r: usize)
        requires
            old(self).wf(),
            old(self).packet_seq().len() + n <= usize::MAX,
            old(self).buffer_seq().len() < usize::MAX,
        ensures
            final(self).wf(),
            r == old(self).packet_seq().len(),
            final(self).packet_seq().len() == old(self).packet_seq().len() + n,
            final(self).packet_seq().subrange(0, r as int) == old(self).packet_seq(),
            forall|k: int|
                r <= k < final(self).packet_seq().len() ==> #[trigger] final(self).packet(k) == (
                Packet {
                    header: crate::packet::PacketHeader {
                        state: State::Empty,
                        blocked_task: None,
                        buffer: Some(old(self).buffer_seq().len() as usize),
                    },
                    payload: None::<T>,
                }),
            final(self).buffer_seq() == old(self).buffer_seq().push(BufferHeader::new_spec()),
    {
        let b = self.buffers.len();
        self.buffers.push(BufferHeader::new());
        let first = self.packets.len();
        let mut i: usize = 0;
        while i < n
            invariant
                0 <= i <= n,
                first == old(self).packet_seq().len(),
                first + n <= usize::MAX,
                b == old(self).buffer_seq().len(),
                self.buffer_seq() == old(self).buffer_seq().push(BufferHeader::new_spec()),
                self.packet_seq().len() == first + i,
                self.packet_seq().subrange(0, first as int) == old(self).packet_seq(),
                old(self).wf(),
                forall|k: int|
                    first <= k < self.packet_seq().len() ==> #[trigger] self.packet(k) == (Packet {
                        header: crate::packet::PacketHeader {
                            state: State::Empty,
                            blocked_task: None,
                            buffer: Some(b),
                        },
                        payload: None::<T>,
                    }),
            decreases n - i,
        {
            let ghost pre = *self;
            let mut pk = mk_packet();
            pk.set_buffer(b);
            self.packets.push(pk);
            i = i + 1;
            proof {
                assert forall|k: int| first <= k < self.packet_seq().len() - 1 implies #[trigger] self.packet(k) == pre.packet(k) by {}
                assert(pre.packet_seq().subrange(0, first as int) == old(self).packet_seq());
                assert(self.packet_seq().subrange(0, first as int) =~= old(self).packet_seq());
            }
        }
        proof {
            assert forall|k: int| 0 <= k < self.packet_seq().len() implies {
                &&& (#[trigger] self.packet(k)).header.buffer is Some
                &&& self.buffer_of(k) < self.buffer_seq().len()
            } by {
                if k < first {
                    assert(self.packet_seq().subrange(0, first as int)[k] == self.packet(k));
                    assert(old(self).packet(k) == self.packet(k));
                }
            }
        }
        first
    }

    /// Takes a reference on the buffer of packet `id` for a new sending
    /// endpoint on it.
    pub fn send_packet(&mut self, id: usize) -> (r: SendPacket)
        requires
            old(self).wf(),
            id < old(self).packet_seq().len(),
            !old(self).buffer_seq()[old(self).buffer_of(id as int)].freed,
            0 <= old(self).buffer_seq()[old(self).buffer_of(id as int)].ref_count < i64::MAX,
        ensures
            final(self).wf(),
            r.id() == id,
            final(self).packet_seq() == old(self).packet_seq(),
            final(self).buffer_seq() == old(self).buffer_seq().update(
                old(self).buffer_of(id as int),
                BufferHeader {
                    ref_count: (old(self).buffer_seq()[old(self).buffer_of(id as int)].ref_count + 1) as i64,
                    freed: false,
                },
            ),
    {
        self.acquire_buffer(id);
        SendPacket { id }
    }

    /// Takes a reference on the buffer of packet `id` for a new receiving
    /// endpoint on it.
    pub fn recv_packet(&mut self, id: usize) -> (r: RecvPacket)
        requires
            old(self).wf(),
            id < old(self).packet_seq().len(),
            !old(self).buffer_seq()[old(self).buffer_of(id as int)].freed,
            0 <= old(self).buffer_seq()[old(self).buffer_of(id as int)].ref_count < i64::MAX,
        ensures
            final(self).wf(),
            r.id() == id,
            !r.waiting(),
            final(self).packet_seq() == old(self).packet_seq(),
            final(self).buffer_seq() == old(self).buffer_seq().update(
                old(self).buffer_of(id as int),
                BufferHeader {
                    ref_count: (old(self).buffer_seq()[old(self).buffer_of(id as int)].ref_count + 1) as i64,
                    freed: false,
                },
            ),
    {
        self.acquire_buffer(id);
        RecvPacket { id, waiting: false }
    }

    /// Takes one more reference on the buffer of packet `id`.
    fn acquire_buffer(&mut self, id: usize)
        requires
            old(self).wf(),
            id < old(self).packet_seq().len(),
            !old(self).buffer_seq()[old(self).buffer_of(id as int)].freed,
            0 <= old(self).buffer_seq()[old(self).buffer_of(id as int)].ref_count < i64::MAX,
        ensures
            final(self).wf(),
            final(self).packet_seq() == old(self).packet_seq(),
            final(self).buffer_seq() == old(self).buffer_seq().update(
                old(self).buffer_of(id as int),
                BufferHeader {
                    ref_count: (old(self).buffer_seq()[old(self).buffer_of(id as int)].ref_count + 1) as i64,
                    freed: false,
                },
            ),
    {
        proof {
            assert(self.packet(id as int).header.buffer is Some);
        }
        let b = match self.packets[id].header.buffer {
            Some(b) => b,
            None => 0,
        };
        self.buffers[b].acquire();
        proof {
            Self::lemma_wf_kept(old(self), self);
        }
    }

    /// A buffer of `n` packets for a bounded conversation, with the two
    /// endpoints of its first packet; the buffer holds one reference for each.
    pub fn entangle_buffer(&mut self, n: usize) -> (r: (SendPacket, RecvPacket))
        requires
            old(self).wf(),
            n >= 1,
            old(self).packet_seq().len() + n <= usize::MAX,
            old(self).buffer_seq().len() < usize::MAX,
        ensures
            final(self).wf(),
            r.0.id() == old(self).packet_seq().len(),
            r.1.id() == old(self).packet_seq().len(),
            !r.1.waiting(),
            final(self).packet_seq().len() == old(self).packet_seq().len() + n,
            final(self).packet_seq().subrange(0, old(self).packet_seq().len() as int)
                == old(self).packet_seq(),
            forall|k: int|
                old(self).packet_seq().len() <= k < final(self).packet_seq().len()
                    ==> #[trigger] final(self).packet(k) == (Packet {
                    header: crate::packet::PacketHeader {
                        state: State::Empty,
                        blocked_task: None,
                        buffer: Some(old(self).buffer_seq().len() as usize),
                    },
                    payload: None::<T>,
                }),
            final(self).buffer_seq() == old(self).buffer_seq().push(
                BufferHeader { ref_count: 2, freed: false },
            ),
    {
        let first = self.new_buffer(n);
        let ghost mid = *self;
        proof {
            assert(self.packet(first as int).header.buffer == Some(old(self).buffer_seq().len() as usize));
        }
        let s = self.send_packet(first);
        let r = self.recv_packet(first);
        proof {
            assert(self.buffer_seq() =~= old(self).buffer_seq().push(
                BufferHeader { ref_count: 2, freed: false },
            ));
            assert forall|k: int|
                old(self).packet_seq().len() <= k < self.packet_seq().len() implies #[trigger] self.packet(k) == mid.packet(k) by {}
        }
        (s, r)
    }

    /// How many packets the table holds.
    pub fn packet_count(&self) -> (r: usize)
        ensures
            r == self.packet_seq().len(),
    {
        self.packets.len()
    }

    /// How many buffers the table holds.
    pub fn buffer_count(&self) -> (r: usize)
        ensures
            r == self.buffer_seq().len(),
    {
        self.buffers.len()
    }
}

} // verus!
