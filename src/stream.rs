//! Streams: an unbounded single-producer, single-consumer channel built by
//! chaining one-message packets, where every message carries the receive
//! endpoint for the rest of the stream.
use vstd::prelude::*;

use crate::packet::{BufferHeader, after_release, after_recv, is_ready, recv_result, send_outcome, RecvStep, SendOutcome, State, TaskId};
use crate::pipe::{Pipes, RecvPacket, SendPacket, TryRecv};


verus! {

/// One message of a stream: a value, and where the next one will arrive.
pub struct Data<T> {
    pub value: T,
    pub next: RecvPacket,
}

/// The sending side of a stream.
pub struct Chan {
    endp: SendPacket,
}

/// The receiving side of a stream.
pub struct Port {
    endp: Option<RecvPacket>,
}

/// The outcome of a receive on a port or a port set.
#[derive(Debug)]
pub enum PortRecv<T> {
    /// The next value.
    Received(T),
    /// No value will ever come.
    Closed,
    /// No value yet: the caller is recorded as waiting and should poll
    /// again once woken.
    Pending,
}

/// The values waiting in a stream, read along `n` links starting at packet
/// `id`.
pub open spec fn queued<T>(pipes: Pipes<Data<T>>, id: int, n: nat) -> Seq<T>
    decreases n,
{
    if n == 0 {
        Seq::empty()
    } else {
        match pipes.packet(id).payload {
            Some(d) => seq![d.value] + queued(pipes, d.next.id(), (n - 1) as nat),
            None => Seq::empty(),
        }
    }
}

/// Packet `id` leads to packet `target` through `n` full packets, each
/// carrying the endpoint of the next.
pub open spec fn reaches<T>(pipes: Pipes<Data<T>>, id: int, target: int, n: nat) -> bool
    decreases n,
{
    &&& 0 <= id < pipes.packet_seq().len()
    &&& if n == 0 {
        id == target
    } else {
        &&& pipes.state(id) == State::Full
        &&& pipes.packet(id).payload matches Some(d) && reaches(pipes, d.next.id(), target, (n - 1) as nat)
    }
}

/// Storing `x` in the last packet of a chain, with a link to a fresh packet,
/// appends `x` to the values waiting along the chain.
proof fn lemma_chain_append<T>(
    before: Pipes<Data<T>>,
    after: Pipes<Data<T>>,
    id: int,
    last: int,
    fresh: int,
    n: nat,
    x: T,
)
    requires
        reaches(before, id, last, n),
        before.state(last) != State::Full,
        after.packet_seq().len() >= before.packet_seq().len(),
        0 <= fresh < after.packet_seq().len(),
        forall|q: int|
            0 <= q < before.packet_seq().len() && q != last ==> #[trigger] after.packet(q)
                == before.packet(q),
        after.state(last) == State::Full,
        after.packet(last).payload matches Some(d) && d.value == x && d.next.id() == fresh,
    ensures
        reaches(after, id, fresh, n + 1),
        queued(after, id, n + 1) == queued(before, id, n).push(x),
    decreases n,
{
    if n == 0 {
        let d = after.packet(last).payload.unwrap();
        assert(reaches(after, fresh, fresh, 0));
        assert(queued(after, fresh, 0) == Seq::<T>::empty());
        assert(queued(after, id, 1) =~= seq![x]);
    } else {
        let d = before.packet(id).payload.unwrap();
        assert(id != last);
        assert(after.packet(id) == before.packet(id));
        lemma_chain_append(before, after, d.next.id(), last, fresh, (n - 1) as nat, x);
        assert(queued(after, id, n + 1) == seq![d.value] + queued(after, d.next.id(), n));
        assert(queued(before, id, n) == seq![d.value] + queued(before, d.next.id(), (n - 1) as nat));
        assert(queued(after, id, n + 1) =~= queued(before, id, n).push(x));
    }
}

/// The packet whose endpoint packet `a` carries.
pub open spec fn next_of<T>(pipes: Pipes<Data<T>>, a: int) -> int {
    pipes.packet(a).payload.unwrap().next.id()
}

/// The packet `j` links after packet `a`.
pub open spec fn node<T>(pipes: Pipes<Data<T>>, a: int, j: nat) -> int
    decreases j,
{
    if j == 0 {
        a
    } else {
        node(pipes, next_of(pipes, a), (j - 1) as nat)
    }
}

proof fn lemma_node_split<T>(pipes: Pipes<Data<T>>, a: int, x: nat, y: nat)
    ensures
        node(pipes, a, x + y) == node(pipes, node(pipes, a, x), y),
    decreases x,
{
    if x > 0 {
        lemma_node_split(pipes, next_of(pipes, a), (x - 1) as nat, y);
        assert((x + y - 1) as nat == (x - 1) as nat + y);
    }
}

/// Along a chain, every packet before the last is full.
proof fn lemma_chain_nodes<T>(pipes: Pipes<Data<T>>, a: int, target: int, n: nat)
    requires
        reaches(pipes, a, target, n),
    ensures
        node(pipes, a, n) == target,
        forall|j: nat| j < n ==> pipes.state(#[trigger] node(pipes, a, j)) == State::Full,
        forall|j: nat| j <= n ==> 0 <= #[trigger] node(pipes, a, j) < pipes.packet_seq().len(),
    decreases n,
{
    if n > 0 {
        let b = next_of(pipes, a);
        lemma_chain_nodes(pipes, b, target, (n - 1) as nat);
        assert forall|j: nat| j < n implies pipes.state(#[trigger] node(pipes, a, j)) == State::Full by {
            if j > 0 {
                assert(node(pipes, a, j) == node(pipes, b, (j - 1) as nat));
            }
        }
        assert forall|j: nat| j <= n implies 0 <= #[trigger] node(pipes, a, j) < pipes.packet_seq().len() by {
            if j > 0 {
                assert(node(pipes, a, j) == node(pipes, b, (j - 1) as nat));
            }
        }
    }
}

/// When the walk from `a` comes back to `a` after `k` links, every later
/// position repeats one of the first `k`.
proof fn lemma_periodic<T>(pipes: Pipes<Data<T>>, a: int, k: nat, m: nat) -> (r: nat)
    requires
        k > 0,
        node(pipes, a, k) == a,
    ensures
        r < k,
        node(pipes, a, m) == node(pipes, a, r),
    decreases m,
{
    if m < k {
        m
    } else {
        lemma_node_split(pipes, a, k, (m - k) as nat);
        assert(k + (m - k) as nat == m);
        lemma_periodic(pipes, a, k, (m - k) as nat)
    }
}

/// A chain that ends in a packet that is not full never comes back to its
/// first packet.
proof fn lemma_chain_acyclic<T>(pipes: Pipes<Data<T>>, a: int, target: int, n: nat)
    requires
        reaches(pipes, a, target, n + 1),
        pipes.state(target) != State::Full,
    ensures
        forall|j: nat| j < n ==> #[trigger] node(pipes, next_of(pipes, a), j) != a,
{
    lemma_chain_nodes(pipes, a, target, n + 1);
    assert forall|j: nat| j < n implies #[trigger] node(pipes, next_of(pipes, a), j) != a by {
        if node(pipes, next_of(pipes, a), j) == a {
            assert(node(pipes, a, j + 1) == a);
            let r = lemma_periodic(pipes, a, j + 1, n + 1);
            assert(pipes.state(node(pipes, a, r)) == State::Full);
        }
    }
}

/// A chain that does not pass through packet `q` reads the same in two
/// tables that differ only at `q`.
proof fn lemma_chain_frame<T>(
    before: Pipes<Data<T>>,
    after: Pipes<Data<T>>,
    a: int,
    target: int,
    n: nat,
    q: int,
)
    requires
        reaches(before, a, target, n),
        after.packet_seq().len() == before.packet_seq().len(),
        forall|i: int|
            0 <= i < before.packet_seq().len() && i != q ==> #[trigger] after.packet(i)
                == before.packet(i),
        forall|j: nat| j < n ==> #[trigger] node(before, a, j) != q,
    ensures
        reaches(after, a, target, n),
        queued(after, a, n) == queued(before, a, n),
    decreases n,
{
    if n > 0 {
        assert(node(before, a, 0) != q);
        assert(after.packet(a) == before.packet(a));
        let b = next_of(before, a);
        assert forall|j: nat| j < (n - 1) as nat implies #[trigger] node(before, b, j) != q by {
            assert(node(before, a, j + 1) == node(before, b, j));
        }
        lemma_chain_frame(before, after, b, target, (n - 1) as nat, q);
    }
}

impl<T> Pipes<Data<T>> {
    /// Packet `id` holds a message whose endpoint for the rest of the stream
    /// may poll, names another packet, and lives in another buffer: taking
    /// the message leaves that endpoint usable.
    pub open spec fn port_advances(&self, id: int) -> bool {
        &&& self.packet(id).payload matches Some(d) && {
            &&& self.can_recv(&d.next)
            &&& d.next.id() != id
            &&& self.buffer_of(d.next.id()) != self.buffer_of(id)
        }
    }
}

/// A new stream in `pipes`.
pub fn stream<T>(pipes: &mut Pipes<Data<T>>) -> (r: (Chan, Port))
    requires
        old(pipes).wf(),
        old(pipes).packet_seq().len() < usize::MAX,
        old(pipes).buffer_seq().len() < usize::MAX,
    ensures
        final(pipes).wf(),
        r.0.id() == old(pipes).packet_seq().len(),
        r.1.endp() matches Some(e) && e.id() == r.0.id() && !e.waiting(),
        final(pipes).can_send(&r.0.endp()),
        final(pipes).can_recv(&r.1.endp().unwrap()),
        final(pipes).packet_seq() == old(pipes).packet_seq().push(
            crate::packet::Packet {
                header: crate::packet::PacketHeader {
                    state: State::Empty,
                    blocked_task: None,
                    buffer: Some(old(pipes).buffer_seq().len() as usize),
                },
                payload: None,
            },
        ),
        final(pipes).buffer_seq() == old(pipes).buffer_seq().push(
            crate::packet::BufferHeader { ref_count: 2, freed: false },
        ),
{
    let (c, s) = pipes.entangle();
    (Chan { endp: c }, Port { endp: Some(s) })
}

impl Chan {
    /// The endpoint this channel sends its next value on.
    pub closed spec fn endp(&self) -> SendPacket {
        self.endp
    }

    /// The packet this channel sends its next value on.
    pub open spec fn id(&self) -> int {
        self.endp().id()
    }

    /// The packet this channel sends its next value on; also the token a
    /// woken receiver gets for it.
    pub fn header(&self) -> (r: usize)
        ensures
            r == self.id(),
    {
        self.endp.header()
    }

    /// Sends `x` and moves on to a fresh packet for the next value; returns
    /// the context to wake, if the receiver sleeps. When the receiver is
    /// gone the value is dropped, and so is the rest of the stream.
    pub fn send<T>(&mut self, pipes: &mut Pipes<Data<T>>, x: T) -> (r: Option<TaskId>)
        requires
            old(pipes).wf(),
            old(pipes).can_send(&old(self).endp()),
            old(pipes).packet_seq().len() < usize::MAX,
            old(pipes).buffer_seq().len() < usize::MAX,
        ensures
            final(pipes).wf(),
            final(self).id() == old(pipes).packet_seq().len(),
            final(pipes).packet_seq().len() == old(pipes).packet_seq().len() + 1,
            final(pipes).can_send(&final(self).endp()),
            r == match send_outcome(old(pipes).packet(old(self).id()).header) {
                SendOutcome::Wake(t) => Some(t),
                _ => None,
            },
            send_outcome(old(pipes).packet(old(self).id()).header) != SendOutcome::Discarded ==> {
                &&& final(pipes).state(old(self).id()) == State::Full
                &&& final(pipes).packet(old(self).id()).payload matches Some(d) && d.value == x
                    && d.next.id() == final(self).id() && !d.next.waiting()
                &&& final(pipes).state(final(self).id()) == State::Empty
                &&& final(pipes).can_recv(&final(pipes).packet(old(self).id()).payload.unwrap().next)
            },
            forall|q: int|
                0 <= q < old(pipes).packet_seq().len() && q != old(self).id()
                    ==> #[trigger] final(pipes).packet(q) == old(pipes).packet(q),
            final(pipes).packet(old(self).id()).header.buffer == old(pipes).packet(
                old(self).id(),
            ).header.buffer,
            final(pipes).buffer_seq().len() == old(pipes).buffer_seq().len() + 1,
            forall|b: int|
                0 <= b < old(pipes).buffer_seq().len() && b != old(pipes).buffer_of(old(self).id())
                    ==> #[trigger] final(pipes).buffer_seq()[b] == old(pipes).buffer_seq()[b],
            final(pipes).buffer_seq()[old(pipes).buffer_of(old(self).id())] == after_release(
                old(pipes).buffer_seq()[old(pipes).buffer_of(old(self).id())],
            ),
            final(pipes).packet(final(self).id()).header.buffer == Some(
                old(pipes).buffer_seq().len() as usize,
            ),
            final(pipes).packet(final(self).id()).header.blocked_task is None,
            final(pipes).packet(final(self).id()).payload is None,
            final(pipes).state(final(self).id()) == State::Empty || final(pipes).state(
                final(self).id(),
            ) == State::Terminated,
            final(pipes).buffer_seq()[old(pipes).buffer_seq().len() as int] == (BufferHeader {
                ref_count: if final(pipes).state(final(self).id()) == State::Empty {
                    2
                } else {
                    1
                },
                freed: false,
            }),
            send_outcome(old(pipes).packet(old(self).id()).header) != SendOutcome::Discarded
                ==> forall|id: int, n: nat|
                #[trigger] reaches(*old(pipes), id, old(self).id(), n) ==> {
                    &&& reaches(*final(pipes), id, final(self).id(), n + 1)
                    &&& queued(*final(pipes), id, n + 1) == queued(*old(pipes), id, n).push(x)
                },
    {
        let (c, s) = pipes.entangle();
        let ghost fresh = c.id();
        let mut prev = c;
        std::mem::swap(&mut self.endp, &mut prev);
        let prev_id = prev.header();
        let out = pipes.send(prev, Data { value: x, next: s });
        proof {
            if out != SendOutcome::Discarded {
                assert forall|id: int, n: nat|
                    #[trigger] reaches(*old(pipes), id, old(self).id(), n) implies {
                        &&& reaches(*pipes, id, self.id(), n + 1)
                        &&& queued(*pipes, id, n + 1) == queued(*old(pipes), id, n).push(x)
                    } by {
                    lemma_chain_append(*old(pipes), *pipes, id, old(self).id(), self.id(), n, x);
                }
            }
        }
        match out {
            SendOutcome::Wake(t) => Some(t),
            SendOutcome::Delivered => None,
            SendOutcome::Discarded => {
                if pipes.buffer_freed(prev_id) {
                    let back = pipes.reclaim(prev_id);
                    match back {
                        Some(d) => {
                            pipes.close_recv(d.next);
                        },
                        None => {},
                    }
                }
                None
            },
        }
    }

    /// Closes the stream from the sending side; returns the context to
    /// wake, if the receiver sleeps.
    pub fn close<T>(self, pipes: &mut Pipes<Data<T>>) -> (r: Option<TaskId>)
        requires
            old(pipes).wf(),
            old(pipes).can_send(&self.endp()),
        ensures
            final(pipes).wf(),
            r == crate::packet::sender_wakes(old(pipes).packet(self.id()).header),
            final(pipes).packet_seq() == old(pipes).packet_seq().update(
                self.id(),
                crate::packet::after_terminate(old(pipes).packet(self.id())),
            ),
            final(pipes).buffer_seq() == old(pipes).buffer_seq().update(
                old(pipes).buffer_of(self.id()),
                after_release(old(pipes).buffer_seq()[old(pipes).buffer_of(self.id())]),
            ),
    {
        pipes.close_send(self.endp)
    }
}

impl Port {
    /// The endpoint this port receives its next value on; none once the
    /// stream has been found closed.
    pub closed spec fn endp(&self) -> Option<RecvPacket> {
        self.endp
    }

    /// The packet this port receives its next value on.
    pub open spec fn id(&self) -> int {
        self.endp().unwrap().id()
    }

    /// The port still has an endpoint that may poll.
    pub open spec fn ready_in<T>(&self, pipes: &Pipes<Data<T>>) -> bool {
        &&& self.endp() is Some
        &&& pipes.can_recv(&self.endp().unwrap())
    }

    /// The packet this port receives on; also the token a sender wakes its
    /// waiter with.
    pub fn header(&self) -> (r: usize)
        requires
            self.endp() is Some,
        ensures
            r == self.id(),
    {
        match &self.endp {
            Some(e) => e.header(),
            None => 0,
        }
    }

    /// One poll for the next value by context `this`.
    pub fn try_recv<T>(&mut self, pipes: &mut Pipes<Data<T>>, this: TaskId) -> (r: PortRecv<T>)
        requires
            old(pipes).wf(),
            old(self).ready_in(old(pipes)),
        ensures
            final(pipes).wf(),
            final(pipes).packet_seq().len() == old(pipes).packet_seq().len(),
            final(pipes).packet_seq() == old(pipes).packet_seq().update(
                old(self).id(),
                after_recv(old(pipes).packet(old(self).id()), this),
            ),
            forall|q: int|
                0 <= q < old(pipes).packet_seq().len() && q != old(self).id()
                    ==> #[trigger] final(pipes).packet(q) == old(pipes).packet(q),
            r is Pending ==> final(pipes).buffer_seq() == old(pipes).buffer_seq(),
            r !is Pending ==> final(pipes).buffer_seq() == old(pipes).buffer_seq().update(
                old(pipes).buffer_of(old(self).id()),
                after_release(old(pipes).buffer_seq()[old(pipes).buffer_of(old(self).id())]),
            ),
            r is Received ==> (old(pipes).port_advances(old(self).id()) ==> final(self).ready_in(
                final(pipes),
            )),
            r is Received ==> forall|target: int, n: nat|
                #[trigger] reaches(*old(pipes), old(self).id(), target, n + 1)
                    && old(pipes).state(target) != State::Full ==> {
                    &&& reaches(*final(pipes), final(self).id(), target, n)
                    &&& queued(*old(pipes), old(self).id(), n + 1) == seq![
                        r->Received_0,
                    ] + queued(*final(pipes), final(self).id(), n)
                },
            match recv_result(old(pipes).packet(old(self).id())) {
                RecvStep::Received(d) => (r matches PortRecv::Received(v) && v == d.value)
                    && final(self).endp() == Some(d.next),
                RecvStep::Closed => r is Closed && final(self).endp() is None,
                RecvStep::Wait => r is Pending && (final(self).endp() matches Some(e) && e.id()
                    == old(self).id() && e.waiting() && final(self).ready_in(final(pipes))),
            },
    {
        let mut taken: Option<RecvPacket> = None;
        std::mem::swap(&mut self.endp, &mut taken);
        let e = taken.unwrap();
        match pipes.try_recv(e, this) {
            TryRecv::Received(d) => {
                self.endp = Some(d.next);
                proof {
                    assert forall|target: int, n: nat|
                        #[trigger] reaches(*old(pipes), old(self).id(), target, n + 1)
                            && old(pipes).state(target) != State::Full implies {
                            &&& reaches(*pipes, self.id(), target, n)
                            &&& queued(*old(pipes), old(self).id(), n + 1) == seq![d.value]
                                + queued(*pipes, self.id(), n)
                        } by {
                        let id = old(self).id();
                        lemma_chain_acyclic(*old(pipes), id, target, n);
                        assert(next_of(*old(pipes), id) == self.id());
                        lemma_chain_frame(*old(pipes), *pipes, self.id(), target, n, id);
                    }
                }
                PortRecv::Received(d.value)
            },
            TryRecv::Closed => PortRecv::Closed,
            TryRecv::Pending(e) => {
                self.endp = Some(e);
                PortRecv::Pending
            },
        }
    }

    /// True when a poll would not have to wait.
    pub fn peek<T>(&self, pipes: &Pipes<Data<T>>) -> (r: bool)
        requires
            pipes.wf(),
            self.ready_in(pipes),
            pipes.state(self.id()) != State::Blocked,
        ensures
            r == is_ready(pipes.state(self.id())),
    {
        match &self.endp {
            Some(e) => pipes.peek(e),
            None => false,
        }
    }

    /// Receives the value that waits in the port's packet.
    pub fn recv<T>(&mut self, pipes: &mut Pipes<Data<T>>, this: TaskId) -> (r: T)
        requires
            old(pipes).wf(),
            old(self).ready_in(old(pipes)),
            old(pipes).state(old(self).id()) == State::Full,
        ensures
            final(pipes).wf(),
            old(pipes).packet(old(self).id()).payload matches Some(d) && r == d.value
                && final(self).endp() == Some(d.next),
            final(pipes).packet_seq() == old(pipes).packet_seq().update(
                old(self).id(),
                after_recv(old(pipes).packet(old(self).id()), this),
            ),
            final(pipes).buffer_seq() == old(pipes).buffer_seq().update(
                old(pipes).buffer_of(old(self).id()),
                after_release(old(pipes).buffer_seq()[old(pipes).buffer_of(old(self).id())]),
            ),
            old(pipes).port_advances(old(self).id()) ==> final(self).ready_in(final(pipes)),
            forall|target: int, n: nat|
                #[trigger] reaches(*old(pipes), old(self).id(), target, n + 1)
                    && old(pipes).state(target) != State::Full ==> {
                    &&& reaches(*final(pipes), final(self).id(), target, n)
                    &&& queued(*old(pipes), old(self).id(), n + 1) == seq![r] + queued(
                        *final(pipes),
                        final(self).id(),
                        n,
                    )
                },
    {
        let got = match self.try_recv(pipes, this) {
            PortRecv::Received(v) => Some(v),
            _ => None,
        };
        got.unwrap()
    }

    /// Closes the stream from the receiving side, dropping any value that
    /// waits in it.
    pub fn close<T>(self, pipes: &mut Pipes<Data<T>>)
        requires
            old(pipes).wf(),
            self.endp() is Some ==> self.ready_in(old(pipes)) && old(pipes).state(self.id())
                != State::Blocked,
        ensures
            final(pipes).wf(),
            self.endp() is Some ==> final(pipes).packet_seq() == old(pipes).packet_seq().update(
                self.id(),
                crate::packet::after_terminate(old(pipes).packet(self.id())),
            ),
            self.endp() is None ==> final(pipes).packet_seq() == old(pipes).packet_seq(),
            self.endp() is Some ==> final(pipes).buffer_seq() == old(pipes).buffer_seq().update(
                old(pipes).buffer_of(self.id()),
                after_release(old(pipes).buffer_seq()[old(pipes).buffer_of(self.id())]),
            ),
            self.endp() is None ==> final(pipes).buffer_seq() == old(pipes).buffer_seq(),
    {
        match self.endp {
            Some(e) => pipes.close_recv(e),
            None => {},
        }
    }
}

/// Several ports read as one.
pub struct PortSet {
    ports: Vec<Port>,
}

impl PortSet {
    /// The member ports, in the order they were added.
    pub closed spec fn ports(&self) -> Seq<Port> {
        self.ports@
    }

    /// The packets the member ports receive on, in order.
    pub open spec fn ids(&self) -> Seq<usize> {
        self.ports().map_values(|p: Port| p.id() as usize)
    }

    /// Every member may poll and waits on nothing yet; no two members share
    /// a packet or a buffer.
    pub open spec fn ready_in<T>(&self, pipes: &Pipes<Data<T>>) -> bool {
        &&& forall|j: int|
            0 <= j < self.ports().len() ==> {
                &&& (#[trigger] self.ports()[j]).ready_in(pipes)
                &&& pipes.state(self.ports()[j].id()) != State::Blocked
                &&& self.ports()[j].id() < usize::MAX
            }
        &&& forall|j: int, l: int|
            0 <= j < l < self.ports().len() ==> {
                &&& self.ports()[j].id() != self.ports()[l].id()
                &&& pipes.buffer_of(self.ports()[j].id()) != pipes.buffer_of(self.ports()[l].id())
            }
    }

    /// A set with no member.
    pub fn new() -> (r: PortSet)
        ensures
            r.ports().len() == 0,
    {
        PortSet { ports: Vec::new() }
    }

    /// Adds a member.
    pub fn add(&mut self, port: Port)
        ensures
            final(self).ports() == old(self).ports().push(port),
    {
        self.ports.push(port);
    }

    /// Opens a new stream whose port joins the set; returns its channel.
    pub fn chan<T>(&mut self, pipes: &mut Pipes<Data<T>>) -> (r: Chan)
        requires
            old(pipes).wf(),
            old(pipes).packet_seq().len() < usize::MAX,
            old(pipes).buffer_seq().len() < usize::MAX,
        ensures
            final(pipes).wf(),
            final(pipes).can_send(&r.endp()),
            final(self).ports().len() == old(self).ports().len() + 1,
            final(self).ports().drop_last() == old(self).ports(),
            final(self).ports().last().id() == r.id(),
            final(pipes).state(r.id()) == State::Empty,
            r.id() == old(pipes).packet_seq().len(),
            final(pipes).packet_seq().len() == old(pipes).packet_seq().len() + 1,
            final(pipes).buffer_seq().len() == old(pipes).buffer_seq().len() + 1,
            forall|q: int|
                0 <= q < old(pipes).packet_seq().len() ==> #[trigger] final(pipes).packet(q)
                    == old(pipes).packet(q),
            final(pipes).packet(r.id()).header.buffer == Some(old(pipes).buffer_seq().len() as usize),
            final(pipes).packet(r.id()).header.blocked_task is None,
            final(pipes).packet(r.id()).payload is None,
            final(pipes).buffer_seq() == old(pipes).buffer_seq().push(
                BufferHeader { ref_count: 2, freed: false },
            ),
            old(self).ready_in(old(pipes)) ==> final(self).ready_in(final(pipes)),
    {
        let (ch, po) = stream(pipes);
        self.add(po);
        proof {
            if old(self).ready_in(old(pipes)) {
                let n = old(self).ports().len();
                assert forall|j: int| 0 <= j < n implies {
                    &&& (#[trigger] self.ports()[j]).ready_in(pipes)
                    &&& pipes.state(self.ports()[j].id()) != State::Blocked
                    &&& self.ports()[j].id() < usize::MAX
                } by {
                    assert(self.ports()[j] == old(self).ports()[j]);
                    assert(old(self).ports()[j].ready_in(old(pipes)));
                    let id = old(self).ports()[j].id();
                    assert(pipes.packet(id) == old(pipes).packet(id));
                    assert(old(pipes).packet(id).header.buffer is Some);
                }
                assert(self.ports()[n as int].ready_in(pipes));
            }
        }
        ch
    }

    /// True when some member would not have to wait.
    pub fn peek<T>(&self, pipes: &Pipes<Data<T>>) -> (r: bool)
        requires
            pipes.wf(),
            self.ready_in(pipes),
        ensures
            r == exists|j: int|
                0 <= j < self.ports().len() && is_ready(pipes.state(#[trigger] self.ids()[j] as int)),
    {
        let mut i: usize = 0;
        while i < self.ports.len()
            invariant
                0 <= i <= self.ports().len(),
                pipes.wf(),
                self.ready_in(pipes),
                forall|j: int| 0 <= j < i ==> !is_ready(pipes.state(#[trigger] self.ids()[j] as int)),
            decreases self.ports().len() - i,
        {
            proof {
                assert(self.ports()[i as int].ready_in(pipes));
            }
            if self.ports[i].peek(pipes) {
                proof {
                    assert(self.ids()[i as int] as int == self.ports()[i as int].id());
                }
                return true;
            }
            i = i + 1;
        }
        false
    }

    /// The packets the member ports receive on; also the tokens their
    /// senders wake a waiter with.
    pub fn headers(&self) -> (r: Vec<usize>)
        requires
            forall|j: int| 0 <= j < self.ports().len() ==> (#[trigger] self.ports()[j]).endp() is Some,
        ensures
            r@ == self.ids(),
    {
        let mut r: Vec<usize> = Vec::new();
        let mut i: usize = 0;
        while i < self.ports.len()
            invariant
                0 <= i <= self.ports().len(),
                r@.len() == i,
                forall|j: int| 0 <= j < self.ports().len() ==> (#[trigger] self.ports()[j]).endp() is Some,
                forall|j: int| 0 <= j < i ==> r@[j] == #[trigger] self.ids()[j],
            decreases self.ports().len() - i,
        {
            r.push(self.ports[i].header());
            i = i + 1;
        }
        proof {
            assert(r@ =~= self.ids());
        }
        r
    }

    /// Receives the next value from any member: waits on all of them, takes
    /// the value of the first that holds one, and drops members found closed
    /// on the way. Reports closed once no member is left.
    #[verifier::rlimit(60)]
    pub fn try_recv<T>(&mut self, pipes: &mut Pipes<Data<T>>, this: TaskId) -> (r: PortRecv<T>)
        requires
            old(pipes).wf(),
            old(self).ready_in(old(pipes)),
        ensures
            final(pipes).wf(),
            (r is Received) == exists|l: int|
                0 <= l < old(self).ids().len() && old(pipes).state(
                    #[trigger] old(self).ids()[l] as int,
                ) == State::Full,
            (r is Closed) == forall|l: int|
                0 <= l < old(self).ids().len() ==> old(pipes).state(
                    #[trigger] old(self).ids()[l] as int,
                ) == State::Terminated,
            r matches PortRecv::Received(v) ==> exists|l: int|
                0 <= l < old(self).ids().len() && old(pipes).state(
                    #[trigger] old(self).ids()[l] as int,
                ) == State::Full && (old(pipes).packet(old(self).ids()[l] as int).payload matches Some(
                    d,
                ) && d.value == v),
            r is Closed ==> final(self).ports().len() == 0,
            r is Pending ==> forall|j: int|
                0 <= j < final(self).ids().len() ==> final(pipes).state(
                    #[trigger] final(self).ids()[j] as int,
                ) == State::Blocked && final(pipes).packet(final(self).ids()[j] as int).header.blocked_task
                    == Some(this),
            r is Received ==> final(self).ports().len() >= 1,
            forall|l: int|
                0 <= l < old(self).ids().len() && old(pipes).state(#[trigger] old(self).ids()[l] as int)
                    == State::Empty ==> final(self).ids().contains(old(self).ids()[l]),
            forall|q: int|
                0 <= q < old(pipes).packet_seq().len() && !crate::pipe::lists(old(self).ids(), q)
                    ==> #[trigger] final(pipes).packet(q) == old(pipes).packet(q),
    {
        loop
            invariant
                pipes.wf(),
                self.ready_in(pipes),
                pipes.packet_seq().len() == old(pipes).packet_seq().len(),
                forall|j: int| 0 <= j < self.ids().len() ==> old(self).ids().contains(#[trigger] self.ids()[j]),
                forall|j: int|
                    0 <= j < self.ids().len() ==> {
                        &&& pipes.state(#[trigger] self.ids()[j] as int) == old(pipes).state(
                            self.ids()[j] as int,
                        )
                        &&& pipes.packet(self.ids()[j] as int).payload == old(pipes).packet(
                            self.ids()[j] as int,
                        ).payload
                    },
                forall|l: int|
                    0 <= l < old(self).ids().len() ==> old(pipes).state(#[trigger] old(self).ids()[l] as int)
                        == State::Terminated || self.ids().contains(old(self).ids()[l]),
                forall|q: int|
                    0 <= q < old(pipes).packet_seq().len() && !crate::pipe::lists(old(self).ids(), q)
                        ==> #[trigger] pipes.packet(q) == old(pipes).packet(q),
            decreases self.ports().len(),
        {
            if self.ports.len() == 0 {
                proof {
                    assert forall|l: int| 0 <= l < old(self).ids().len() implies old(pipes).state(
                        #[trigger] old(self).ids()[l] as int,
                    ) == State::Terminated by {
                        if self.ids().contains(old(self).ids()[l]) {
                            let j = choose|j: int| 0 <= j < self.ids().len() && self.ids()[j] == old(self).ids()[l];
                        }
                    }
                }
                return PortRecv::Closed;
            }
            let ids = self.headers();
            let ghost cur = self.ids();
            let ghost before = *pipes;
            proof {
                assert forall|j: int| 0 <= j < ids@.len() implies {
                    &&& #[trigger] ids@[j] < pipes.packet_seq().len()
                    &&& pipes.state(ids@[j] as int) != State::Blocked
                } by {
                    assert(self.ports()[j].ready_in(pipes));
                }
            }
            let got = pipes.wait_many(&ids, this);
            match got {
                None => {
                    proof {
                        assert forall|l: int| 0 <= l < old(self).ids().len() implies old(pipes).state(
                            #[trigger] old(self).ids()[l] as int,
                        ) != State::Full by {
                            if old(pipes).state(old(self).ids()[l] as int) != State::Terminated {
                                let j = choose|j: int| 0 <= j < cur.len() && cur[j] == old(self).ids()[l];
                                assert(!is_ready(before.states_of(ids@)[j]));
                            }
                        }
                        assert(old(self).ids().contains(cur[0]));
                        let l = choose|l: int| 0 <= l < old(self).ids().len() && old(self).ids()[l] == cur[0];
                        assert(!is_ready(before.states_of(ids@)[0]));
                        assert(old(pipes).state(old(self).ids()[l] as int) != State::Terminated);
                        assert forall|j: int| 0 <= j < self.ids().len() implies pipes.state(
                            #[trigger] self.ids()[j] as int,
                        ) == State::Blocked by {
                            assert(pipes.state(ids@[j] as int) == State::Blocked);
                        }
                    }
                    return PortRecv::Pending;
                },
                Some(i) => {
                    let ghost mid = *pipes;
                    let ghost id = cur[i as int] as int;
                    proof {
                        assert(is_ready(before.states_of(ids@)[i as int]));
                        assert(mid.packet(ids@[i as int] as int).payload == before.packet(ids@[i as int] as int).payload);
                        assert(self.ports()[i as int].ready_in(&before));
                        assert(self.ports()[i as int].ready_in(&mid));
                        assert(old(self).ids().contains(cur[i as int]));
                    }
                    let ghost l = choose|l: int| 0 <= l < old(self).ids().len() && old(self).ids()[l] == cur[i as int];
                    let ghost pp = self.ports();
                    let res = self.ports[i].try_recv(pipes, this);
                    match res {
                        PortRecv::Received(v) => {
                            proof {
                                assert(old(pipes).state(old(self).ids()[l] as int) == State::Full);
                                assert forall|k: int| 0 <= k < pp.len() && k != i implies #[trigger] self.ports()[k] == pp[k] by {}
                                assert forall|m: int|
                                    0 <= m < old(self).ids().len() && old(pipes).state(#[trigger] old(self).ids()[m] as int)
                                        == State::Empty implies self.ids().contains(old(self).ids()[m]) by {
                                    let j = choose|j: int| 0 <= j < cur.len() && cur[j] == old(self).ids()[m];
                                    assert(j != i);
                                    assert(self.ids()[j] == cur[j]);
                                }
                                assert forall|q: int|
                                    0 <= q < old(pipes).packet_seq().len() && !crate::pipe::lists(old(self).ids(), q)
                                        implies #[trigger] pipes.packet(q) == old(pipes).packet(q) by {
                                    assert(q != id);
                                    assert(pipes.packet(q) == mid.packet(q));
                                    if crate::pipe::lists(cur, q) {
                                        let j = choose|j: int| 0 <= j < cur.len() && #[trigger] cur[j] as int == q;
                                        assert(old(self).ids().contains(cur[j]));
                                        let m = choose|m: int| 0 <= m < old(self).ids().len() && old(self).ids()[m] == cur[j];
                                        assert(old(self).ids()[m] as int == q);
                                    }
                                    assert(mid.packet(q) == before.packet(q));
                                }
                            }
                            return PortRecv::Received(v);
                        },
                        _ => {
                            proof {
                                assert(old(pipes).state(old(self).ids()[l] as int) == State::Terminated);
                            }
                            let ghost pp2 = self.ports();
                            proof {
                                assert forall|k: int| 0 <= k < pp.len() && k != i implies pp2[k] == pp[k] by {}
                            }
                            let _gone = self.ports.remove(i);
                            proof {
                                assert(self.ids() =~= cur.remove(i as int));
                                assert forall|j: int| 0 <= j < cur.len() && j != i implies {
                                    &&& pipes.packet(#[trigger] cur[j] as int) == mid.packet(cur[j] as int)
                                    &&& mid.buffer_of(cur[j] as int) != mid.buffer_of(id)
                                } by {
                                    assert(before.buffer_of(cur[j] as int) == mid.buffer_of(cur[j] as int));
                                    assert(cur[j] != cur[i as int]);
                                }
                                assert(self.ports() =~= pp.remove(i as int));
                                assert forall|j: int| 0 <= j < self.ports().len() implies {
                                    &&& (#[trigger] self.ports()[j]).ready_in(pipes)
                                    &&& pipes.state(self.ports()[j].id()) != State::Blocked
                                    &&& self.ports()[j].id() < usize::MAX
                                } by {
                                    let k = if j < i { j } else { j + 1 };
                                    assert(self.ports()[j] == pp[k]);
                                    assert(pp[k].ready_in(&before));
                                    assert(cur[k] as int == pp[k].id());
                                    assert(pipes.packet(cur[k] as int) == mid.packet(cur[k] as int));
                                    assert(mid.packet(ids@[k] as int).payload == before.packet(ids@[k] as int).payload);
                                    assert(mid.buffer_of(cur[k] as int) != mid.buffer_of(id));
                                    assert(pipes.buffer_seq()[mid.buffer_of(cur[k] as int)] == mid.buffer_seq()[mid.buffer_of(cur[k] as int)]);
                                }
                                assert forall|j: int, m: int| 0 <= j < m < self.ports().len() implies {
                                    &&& self.ports()[j].id() != self.ports()[m].id()
                                    &&& pipes.buffer_of(self.ports()[j].id()) != pipes.buffer_of(self.ports()[m].id())
                                } by {
                                    let kj = if j < i { j } else { j + 1 };
                                    let km = if m < i { m } else { m + 1 };
                                    assert(self.ports()[j] == pp[kj]);
                                    assert(self.ports()[m] == pp[km]);
                                    assert(cur[kj] as int == pp[kj].id());
                                    assert(cur[km] as int == pp[km].id());
                                    assert(pipes.packet(cur[kj] as int) == mid.packet(cur[kj] as int));
                                    assert(pipes.packet(cur[km] as int) == mid.packet(cur[km] as int));
                                }
                                assert forall|m: int| 0 <= m < old(self).ids().len() implies old(pipes).state(
                                    #[trigger] old(self).ids()[m] as int,
                                ) == State::Terminated || self.ids().contains(old(self).ids()[m]) by {
                                    if old(pipes).state(old(self).ids()[m] as int) != State::Terminated {
                                        let j = choose|j: int| 0 <= j < cur.len() && cur[j] == old(self).ids()[m];
                                        assert(j != i);
                                        let k = if j < i { j } else { j - 1 };
                                        assert(self.ids()[k] == cur[j]);
                                    }
                                }
                            }
                        },
                    }
                },
            }
        }
    }

    /// Receives the next value from the first member that holds one,
    /// dropping members found closed on the way.
    pub fn recv<T>(&mut self, pipes: &mut Pipes<Data<T>>, this: TaskId) -> (r: T)
        requires
            old(pipes).wf(),
            old(self).ready_in(old(pipes)),
            exists|l: int|
                0 <= l < old(self).ids().len() && old(pipes).state(
                    #[trigger] old(self).ids()[l] as int,
                ) == State::Full,
        ensures
            final(pipes).wf(),
            exists|l: int|
                0 <= l < old(self).ids().len() && old(pipes).state(
                    #[trigger] old(self).ids()[l] as int,
                ) == State::Full && (old(pipes).packet(old(self).ids()[l] as int).payload matches Some(
                    d,
                ) && d.value == r),
            final(self).ports().len() >= 1,
            forall|l: int|
                0 <= l < old(self).ids().len() && old(pipes).state(#[trigger] old(self).ids()[l] as int)
                    == State::Empty ==> final(self).ids().contains(old(self).ids()[l]),
            forall|q: int|
                0 <= q < old(pipes).packet_seq().len() && !crate::pipe::lists(old(self).ids(), q)
                    ==> #[trigger] final(pipes).packet(q) == old(pipes).packet(q),
    {
        let got = match self.try_recv(pipes, this) {
            PortRecv::Received(v) => Some(v),
            _ => None,
        };
        got.unwrap()
    }
}

/// The outcome of polling two ports at once.
#[derive(Debug)]
pub enum Either2<T> {
    /// The first port was ready; what its receive gave.
    Left(PortRecv<T>),
    /// Only the second port was ready; what its receive gave.
    Right(PortRecv<T>),
    /// Neither was ready: both are blocked on the caller.
    Neither,
}

/// Port `p` became `q` by taking what its ready packet held: the packet is
/// polled by `this`, its buffer loses one reference, and the port moves to
/// the carried endpoint, or has none once the packet was closed.
pub open spec fn taken_from<T>(
    before: Pipes<Data<T>>,
    after: Pipes<Data<T>>,
    p: Port,
    q: Port,
    this: TaskId,
) -> bool {
    &&& after.packet(p.id()) == after_recv(before.packet(p.id()), this)
    &&& after.buffer_seq() == before.buffer_seq().update(
        before.buffer_of(p.id()),
        after_release(before.buffer_seq()[before.buffer_of(p.id())]),
    )
    &&& match recv_result(before.packet(p.id())) {
        RecvStep::Received(d) => q.endp() == Some(d.next),
        _ => q.endp() is None,
    }
}

/// Port `p` was left as it was while port `other` was read: same endpoint,
/// same state and message, no waiter, and still able to poll when the two
/// live in different buffers.
pub open spec fn kept<T>(
    before: Pipes<Data<T>>,
    after: Pipes<Data<T>>,
    p: Port,
    q: Port,
    other: Port,
) -> bool {
    &&& q == p
    &&& after.state(p.id()) == before.state(p.id())
    &&& after.packet(p.id()).payload == before.packet(p.id()).payload
    &&& after.packet(p.id()).header.blocked_task is None
    &&& before.buffer_of(p.id()) != before.buffer_of(other.id()) ==> q.ready_in(&after)
}

/// Polls two ports and receives from the first one that is ready (the
/// first port when both are).
pub fn try_select<T>(pipes: &mut Pipes<Data<T>>, lp: &mut Port, rp: &mut Port, this: TaskId) -> (r: Either2<T>)
    requires
        old(pipes).wf(),
        old(lp).ready_in(old(pipes)),
        old(rp).ready_in(old(pipes)),
        old(lp).id() != old(rp).id(),
        old(pipes).state(old(lp).id()) != State::Blocked,
        old(pipes).state(old(rp).id()) != State::Blocked,
    ensures
        final(pipes).wf(),
        is_ready(old(pipes).state(old(lp).id())) ==> (r matches Either2::Left(x) && match recv_result(
            old(pipes).packet(old(lp).id()),
        ) {
            RecvStep::Received(d) => x matches PortRecv::Received(v) && v == d.value,
            _ => x is Closed,
        }),
        !is_ready(old(pipes).state(old(lp).id())) && is_ready(old(pipes).state(old(rp).id()))
            ==> (r matches Either2::Right(y) && match recv_result(old(pipes).packet(old(rp).id())) {
            RecvStep::Received(d) => y matches PortRecv::Received(v) && v == d.value,
            _ => y is Closed,
        }),
        !is_ready(old(pipes).state(old(lp).id())) && !is_ready(old(pipes).state(old(rp).id()))
            ==> r is Neither,
        final(pipes).packet_seq().len() == old(pipes).packet_seq().len(),
        forall|q: int|
            0 <= q < old(pipes).packet_seq().len() && q != old(lp).id() && q != old(rp).id()
                ==> #[trigger] final(pipes).packet(q) == old(pipes).packet(q),
        r is Left ==> taken_from(*old(pipes), *final(pipes), *old(lp), *final(lp), this)
            && kept(*old(pipes), *final(pipes), *old(rp), *final(rp), *old(lp)),
        r is Right ==> taken_from(*old(pipes), *final(pipes), *old(rp), *final(rp), this)
            && kept(*old(pipes), *final(pipes), *old(lp), *final(lp), *old(rp)),
        r is Neither ==> {
            &&& *final(lp) == *old(lp)
            &&& *final(rp) == *old(rp)
            &&& final(pipes).buffer_seq() == old(pipes).buffer_seq()
            &&& final(pipes).state(old(lp).id()) == State::Blocked
            &&& final(pipes).state(old(rp).id()) == State::Blocked
            &&& final(pipes).packet(old(lp).id()).header.blocked_task == Some(this)
            &&& final(pipes).packet(old(rp).id()).header.blocked_task == Some(this)
        },
{
    let side = match (&lp.endp, &rp.endp) {
        (Some(a), Some(b)) => pipes.select2i(a, b, this),
        _ => None,
    };
    let ghost mid = *pipes;
    match side {
        Some(crate::select::Side::Left) => {
            let x = lp.try_recv(pipes, this);
            proof {
                assert(after_recv(mid.packet(old(lp).id()), this) == after_recv(
                    old(pipes).packet(old(lp).id()),
                    this,
                ));
                assert(pipes.packet(old(rp).id()) == mid.packet(old(rp).id()));
                assert(pipes.packet(old(lp).id()) == after_recv(old(pipes).packet(old(lp).id()), this));
                assert(pipes.buffer_seq() == old(pipes).buffer_seq().update(
                    old(pipes).buffer_of(old(lp).id()),
                    after_release(old(pipes).buffer_seq()[old(pipes).buffer_of(old(lp).id())]),
                ));
                assert(*rp == *old(rp));
                assert(pipes.state(old(rp).id()) == old(pipes).state(old(rp).id()));
                assert(pipes.packet(old(rp).id()).header.blocked_task is None);
                if old(pipes).buffer_of(old(rp).id()) != old(pipes).buffer_of(old(lp).id()) {
                    assert(rp.ready_in(&*pipes));
                }
            }
            Either2::Left(x)
        },
        Some(crate::select::Side::Right) => {
            let y = rp.try_recv(pipes, this);
            proof {
                assert(after_recv(mid.packet(old(rp).id()), this) == after_recv(
                    old(pipes).packet(old(rp).id()),
                    this,
                ));
                assert(pipes.packet(old(lp).id()) == mid.packet(old(lp).id()));
                assert(pipes.packet(old(rp).id()) == after_recv(old(pipes).packet(old(rp).id()), this));
                assert(*lp == *old(lp));
                if old(pipes).buffer_of(old(rp).id()) != old(pipes).buffer_of(old(lp).id()) {
                    assert(lp.ready_in(&*pipes));
                }
            }
            Either2::Right(y)
        },
        None => Either2::Neither,
    }
}

} // verus!
