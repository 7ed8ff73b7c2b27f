//! Waiting on several receive endpoints at once.
use vstd::prelude::*;

use crate::packet::{is_ready, Packet, State, TaskId};
use crate::pipe::{lists, is_first_ready, none_ready, Pipes, RecvPacket, TryRecv};

verus! {

/// What the first poll of a ready packet yields: its message, or nothing
/// when it was closed.
pub open spec fn ready_message<T>(p: Packet<T>) -> Option<T> {
    if p.header.state == State::Full {
        p.payload
    } else {
        None
    }
}

/// Which of two endpoints is ready.
#[derive(PartialEq, Eq, Structural, Clone, Copy, Debug)]
pub enum Side {
    Left,
    Right,
}

/// The outcome of selecting between two endpoints.
pub enum Select2<T> {
    /// The first endpoint was ready and has been consumed; the second comes
    /// back untouched.
    Left(Option<T>, RecvPacket),
    /// The second endpoint was ready and has been consumed; the first comes
    /// back untouched.
    Right(RecvPacket, Option<T>),
    /// Neither was ready: both are blocked on the caller, who sleeps and
    /// then hands the wake to `wake_many`.
    Waiting(RecvPacket, RecvPacket),
}

/// The outcome of selecting among a list of endpoints.
pub enum SelectAll<T> {
    /// The index of the endpoint that was ready, what it yielded, and the
    /// other endpoints in the order they were given.
    Ready(usize, Option<T>, Vec<RecvPacket>),
    /// None was ready: all of them are blocked on the caller.
    Waiting(Vec<RecvPacket>),
}

/// The packets that the endpoints receive on, in order.
pub open spec fn ids_of(eps: Seq<RecvPacket>) -> Seq<usize> {
    eps.map_values(|p: RecvPacket| p.id() as usize)
}

impl<T> Pipes<T> {
    /// Two endpoints that live in one buffer hold a reference each.
    pub open spec fn refs_apart(&self, a: int, b: int) -> bool {
        self.buffer_of(a) == self.buffer_of(b) ==> self.buffer_seq()[self.buffer_of(a)].ref_count
            >= 2
    }

    /// Every endpoint of the list may poll, none waits yet, and no two of
    /// them share a packet.
    pub open spec fn selectable(&self, eps: Seq<RecvPacket>) -> bool {
        &&& forall|j: int|
            0 <= j < eps.len() ==> {
                &&& self.can_recv(&eps[j])
                &&& self.state(#[trigger] eps[j].id()) != State::Blocked
                &&& eps[j].id() < usize::MAX
            }
        &&& forall|j: int, l: int| 0 <= j < l < eps.len() ==> eps[j].id() != eps[l].id()
    }

    /// The packet ids of a list of endpoints.
    fn headers(eps: &Vec<RecvPacket>) -> (r: Vec<usize>)
        ensures
            r@.len() == eps@.len(),
            forall|j: int| 0 <= j < eps@.len() ==> r@[j] as int == #[trigger] eps@[j].id(),
    {
        let mut r: Vec<usize> = Vec::new();
        let mut i: usize = 0;
        while i < eps.len()
            invariant
                0 <= i <= eps@.len(),
                r@.len() == i,
                forall|j: int| 0 <= j < i ==> r@[j] as int == #[trigger] eps@[j].id(),
            decreases eps@.len() - i,
        {
            r.push(eps[i].header());
            i = i + 1;
        }
        r
    }

    /// Waits on the listed endpoints as `wait_many` does, and returns the
    /// index of the first one that is ready, if any.
    pub fn selecti(&mut self, endpoints: &Vec<RecvPacket>, this: TaskId) -> (r: Option<usize>)
        requires
            old(self).wf(),
            old(self).selectable(endpoints@),
        ensures
            final(self).wf(),
            final(self).buffer_seq() == old(self).buffer_seq(),
            final(self).packet_seq().len() == old(self).packet_seq().len(),
            match r {
                Some(k) => is_first_ready(old(self).states_of(ids_of(endpoints@)), k as int),
                None => none_ready(old(self).states_of(ids_of(endpoints@))),
            },
            forall|j: int|
                0 <= j < endpoints@.len() ==> {
                    &&& r is Some ==> final(self).state(#[trigger] endpoints@[j].id())
                        == old(self).state(endpoints@[j].id())
                    &&& r is None ==> final(self).state(endpoints@[j].id()) == State::Blocked
                    &&& r is Some ==> final(self).packet(endpoints@[j].id()).header.blocked_task is None
                    &&& r is None ==> final(self).packet(endpoints@[j].id()).header.blocked_task
                        == Some(this)
                    &&& final(self).packet(endpoints@[j].id()).payload == old(self).packet(
                        endpoints@[j].id(),
                    ).payload
                    &&& final(self).packet(endpoints@[j].id()).header.buffer == old(self).packet(
                        endpoints@[j].id(),
                    ).header.buffer
                },
            forall|q: int|
                0 <= q < old(self).packet_seq().len() && !lists(ids_of(endpoints@), q)
                    ==> #[trigger] final(self).packet(q) == old(self).packet(q),
    {
        let ids = Self::headers(endpoints);
        proof {
            assert(ids@ == ids_of(endpoints@));
            assert forall|j: int| 0 <= j < ids@.len() implies {
                &&& #[trigger] ids@[j] < self.packet_seq().len()
                &&& self.state(ids@[j] as int) != State::Blocked
            } by {
                assert(self.state(endpoints@[j].id()) != State::Blocked);
            }
        }
        self.wait_many(&ids, this)
    }

    /// Waits on two endpoints; says which one is ready, the first winning
    /// when both are.
    pub fn select2i(&mut self, a: &RecvPacket, b: &RecvPacket, this: TaskId) -> (r: Option<Side>)
        requires
            old(self).wf(),
            old(self).can_recv(a),
            old(self).can_recv(b),
            a.id() != b.id(),
            old(self).state(a.id()) != State::Blocked,
            old(self).state(b.id()) != State::Blocked,
        ensures
            final(self).wf(),
            final(self).buffer_seq() == old(self).buffer_seq(),
            final(self).packet_seq().len() == old(self).packet_seq().len(),
            r == if is_ready(old(self).state(a.id())) {
                Some(Side::Left)
            } else if is_ready(old(self).state(b.id())) {
                Some(Side::Right)
            } else {
                None
            },
            r is Some ==> final(self).state(a.id()) == old(self).state(a.id()),
            r is Some ==> final(self).state(b.id()) == old(self).state(b.id()),
            r is None ==> final(self).state(a.id()) == State::Blocked,
            r is None ==> final(self).state(b.id()) == State::Blocked,
            r is Some ==> final(self).packet(a.id()).header.blocked_task is None,
            r is Some ==> final(self).packet(b.id()).header.blocked_task is None,
            r is None ==> final(self).packet(a.id()).header.blocked_task == Some(this),
            r is None ==> final(self).packet(b.id()).header.blocked_task == Some(this),
            final(self).packet(a.id()).payload == old(self).packet(a.id()).payload,
            final(self).packet(b.id()).payload == old(self).packet(b.id()).payload,
            final(self).packet(a.id()).header.buffer == old(self).packet(a.id()).header.buffer,
            final(self).packet(b.id()).header.buffer == old(self).packet(b.id()).header.buffer,
            forall|q: int|
                0 <= q < old(self).packet_seq().len() && q != a.id() && q != b.id()
                    ==> #[trigger] final(self).packet(q) == old(self).packet(q),
    {
        let ids: Vec<usize> = vec![a.header(), b.header()];
        let ghost s = old(self).states_of(ids@);
        proof {
            assert(s[0] == old(self).state(a.id()));
            assert(s[1] == old(self).state(b.id()));
        }
        let r = self.wait_many(&ids, this);
        proof {
            assert(self.packet(ids@[0] as int) == self.packet(a.id()));
            assert(self.packet(ids@[1] as int) == self.packet(b.id()));
            assert forall|q: int|
                0 <= q < old(self).packet_seq().len() && q != a.id() && q != b.id()
                    implies #[trigger] self.packet(q) == old(self).packet(q) by {
                if crate::pipe::lists(ids@, q) {
                    let j = choose|j: int| 0 <= j < ids@.len() && #[trigger] ids@[j] as int == q;
                    assert(j == 0 || j == 1);
                }
            }
        }
        match r {
            Some(k) => {
                if k == 0 {
                    Some(Side::Left)
                } else {
                    Some(Side::Right)
                }
            },
            None => None,
        }
    }

    /// Receives from whichever of two endpoints is ready first (the first
    /// one when both are) and hands back the other; when neither is, both
    /// come back blocked on the caller.
    pub fn select2(&mut self, a: RecvPacket, b: RecvPacket, this: TaskId) -> (r: Select2<T>)
        requires
            old(self).wf(),
            old(self).can_recv(&a),
            old(self).can_recv(&b),
            a.id() != b.id(),
            old(self).state(a.id()) != State::Blocked,
            old(self).state(b.id()) != State::Blocked,
            old(self).refs_apart(a.id(), b.id()),
        ensures
            final(self).wf(),
            is_ready(old(self).state(a.id())) ==> (r matches Select2::Left(x, rest) && {
                &&& x == ready_message(old(self).packet(a.id()))
                &&& rest.id() == b.id()
                &&& final(self).can_recv(&rest)
                &&& final(self).state(b.id()) == old(self).state(b.id())
            }),
            !is_ready(old(self).state(a.id())) && is_ready(old(self).state(b.id()))
                ==> (r matches Select2::Right(rest, y) && {
                &&& y == ready_message(old(self).packet(b.id()))
                &&& rest.id() == a.id()
                &&& final(self).can_recv(&rest)
                &&& final(self).state(a.id()) == old(self).state(a.id())
            }),
            !is_ready(old(self).state(a.id())) && !is_ready(old(self).state(b.id()))
                ==> (r matches Select2::Waiting(a2, b2) && {
                &&& a2.id() == a.id()
                &&& b2.id() == b.id()
                &&& final(self).state(a.id()) == State::Blocked
                &&& final(self).state(b.id()) == State::Blocked
                &&& final(self).packet(a.id()).header.blocked_task == Some(this)
                &&& final(self).packet(b.id()).header.blocked_task == Some(this)
            }),
            forall|q: int|
                0 <= q < old(self).packet_seq().len() && q != a.id() && q != b.id()
                    ==> #[trigger] final(self).packet(q) == old(self).packet(q),
    {
        let side = self.select2i(&a, &b, this);
        let ghost mid = *self;
        match side {
            Some(Side::Left) => {
                let x = match self.try_recv(a, this) {
                    TryRecv::Received(v) => Some(v),
                    _ => None,
                };
                proof {
                    assert forall|q: int|
                        0 <= q < old(self).packet_seq().len() && q != a.id() && q != b.id()
                            implies #[trigger] self.packet(q) == old(self).packet(q) by {
                        assert(self.packet(q) == mid.packet(q));
                    }
                }
                Select2::Left(x, b)
            },
            Some(Side::Right) => {
                let y = match self.try_recv(b, this) {
                    TryRecv::Received(v) => Some(v),
                    _ => None,
                };
                proof {
                    assert forall|q: int|
                        0 <= q < old(self).packet_seq().len() && q != a.id() && q != b.id()
                            implies #[trigger] self.packet(q) == old(self).packet(q) by {
                        assert(self.packet(q) == mid.packet(q));
                    }
                }
                Select2::Right(a, y)
            },
            None => Select2::Waiting(a, b),
        }
    }

    /// Receives from the first ready endpoint of the list and hands back the
    /// others in their order; when none is ready, all come back blocked on
    /// the caller.
    pub fn select(&mut self, endpoints: Vec<RecvPacket>, this: TaskId) -> (r: SelectAll<T>)
        requires
            old(self).wf(),
            old(self).selectable(endpoints@),
            forall|j: int, l: int|
                0 <= j < endpoints@.len() && 0 <= l < endpoints@.len() && j != l
                    ==> old(self).refs_apart(endpoints@[j].id(), endpoints@[l].id()),
        ensures
            final(self).wf(),
            match r {
                SelectAll::Ready(k, x, rest) => {
                    &&& is_first_ready(old(self).states_of(ids_of(endpoints@)), k as int)
                    &&& x == ready_message(old(self).packet(endpoints@[k as int].id()))
                    &&& ids_of(rest@) == ids_of(endpoints@).remove(k as int)
                    &&& forall|j: int|
                        0 <= j < rest@.len() ==> {
                            &&& final(self).state(#[trigger] rest@[j].id()) == old(self).state(
                                rest@[j].id(),
                            )
                            &&& final(self).packet(rest@[j].id()).payload == old(self).packet(
                                rest@[j].id(),
                            ).payload
                            &&& final(self).packet(rest@[j].id()).header.blocked_task is None
                            &&& final(self).can_recv(&rest@[j])
                        }
                },
                SelectAll::Waiting(eps) => {
                    &&& none_ready(old(self).states_of(ids_of(endpoints@)))
                    &&& ids_of(eps@) == ids_of(endpoints@)
                    &&& forall|j: int|
                        0 <= j < eps@.len() ==> final(self).state(#[trigger] eps@[j].id())
                            == State::Blocked && final(self).packet(eps@[j].id()).header.blocked_task
                            == Some(this)
                },
            },
            forall|q: int|
                0 <= q < old(self).packet_seq().len() && !lists(ids_of(endpoints@), q)
                    ==> #[trigger] final(self).packet(q) == old(self).packet(q),
    {
        let ready = self.selecti(&endpoints, this);
        match ready {
            Some(k) => {
                let mut rest = endpoints;
                let e = rest.remove(k);
                proof {
                    assert(self.state(e.id()) == old(self).state(e.id()));
                    assert(ids_of(rest@) =~= ids_of(endpoints@).remove(k as int));
                }
                let ghost mid = *self;
                let ghost eid = e.id();
                let x = match self.try_recv(e, this) {
                    TryRecv::Received(v) => Some(v),
                    _ => None,
                };
                proof {
                    assert(ids_of(endpoints@)[k as int] as int == eid);
                    assert forall|q: int|
                        0 <= q < old(self).packet_seq().len() && !lists(ids_of(endpoints@), q)
                            implies #[trigger] self.packet(q) == old(self).packet(q) by {
                        assert(q != eid);
                        assert(self.packet(q) == mid.packet(q));
                    }
                    assert forall|j: int| 0 <= j < rest@.len() implies {
                        &&& self.state(#[trigger] rest@[j].id()) == old(self).state(rest@[j].id())
                        &&& self.packet(rest@[j].id()).payload == old(self).packet(rest@[j].id()).payload
                        &&& self.packet(rest@[j].id()).header.blocked_task is None
                        &&& self.can_recv(&rest@[j])
                    } by {
                        let jj = if j < k { j } else { j + 1 };
                        assert(rest@[j] == endpoints@[jj]);
                        assert(endpoints@[jj].id() != eid);
                        assert(self.packet(endpoints@[jj].id()) == mid.packet(endpoints@[jj].id()));
                        assert(old(self).can_recv(&endpoints@[jj]));
                        assert(old(self).refs_apart(eid, endpoints@[jj].id()));
                        assert(mid.packet(endpoints@[jj].id()).header.buffer == old(self).packet(endpoints@[jj].id()).header.buffer);
                    }
                }
                SelectAll::Ready(k, x, rest)
            },
            None => SelectAll::Waiting(endpoints),
        }
    }
}

} // verus!
