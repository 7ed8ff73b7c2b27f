use pipes::atomics::{atomic_add_acq, atomic_sub_rel, atomic_xchng_rel, swap_state_acq};
use pipes::packet::{mk_packet, BufferHeader, PacketHeader, RecvStep, SendOutcome, State};
use pipes::pipe::{Pipes, TryRecv};

#[test]
fn exchange_returns_previous_value() {
    let mut cell: i64 = 5;
    assert_eq!(atomic_xchng_rel(&mut cell, 9), 5);
    assert_eq!(cell, 9);
}

#[test]
fn add_and_sub_return_previous_value() {
    let mut cell: i64 = 1;
    assert_eq!(atomic_add_acq(&mut cell, 1), 1);
    assert_eq!(cell, 2);
    assert_eq!(atomic_sub_rel(&mut cell, 1), 2);
    assert_eq!(cell, 1);
}

#[test]
fn add_wraps_at_the_top() {
    let mut cell: i64 = i64::MAX;
    assert_eq!(atomic_add_acq(&mut cell, 1), i64::MAX);
    assert_eq!(cell, i64::MIN);
}

#[test]
fn state_swap_returns_previous_state() {
    let mut s = State::Full;
    assert_eq!(swap_state_acq(&mut s, State::Blocked), State::Full);
    assert_eq!(s, State::Blocked);
}

#[test]
fn unblock_restores_natural_state() {
    let mut h = PacketHeader::new();
    assert_eq!(h.mark_blocked(7), State::Empty);
    assert_eq!(h.blocked_task, Some(7));
    h.unblock();
    assert_eq!(h.state, State::Empty);
    assert_eq!(h.blocked_task, None);

    let mut full = PacketHeader::new();
    full.state = State::Full;
    full.blocked_task = Some(3);
    full.unblock();
    assert_eq!(full.state, State::Full);
}

#[test]
fn packet_send_then_poll_yields_message() {
    let mut p = mk_packet::<u32>();
    p.set_buffer(0);
    assert_eq!(p.send(11), SendOutcome::Delivered);
    assert_eq!(p.header.state, State::Full);
    match p.try_recv_step(1, true) {
        RecvStep::Received(v) => assert_eq!(v, 11),
        other => panic!("unexpected {:?}", other),
    }
    assert_eq!(p.header.state, State::Empty);
    assert!(p.payload.is_none());
}

#[test]
fn packet_poll_before_send_waits_then_is_woken() {
    let mut p = mk_packet::<u32>();
    assert!(matches!(p.try_recv_step(4, true), RecvStep::Wait));
    assert_eq!(p.header.state, State::Blocked);
    assert_eq!(p.send(8), SendOutcome::Wake(4));
    match p.try_recv_step(4, false) {
        RecvStep::Received(v) => assert_eq!(v, 8),
        other => panic!("unexpected {:?}", other),
    }
}

#[test]
fn packet_peek() {
    let mut p = mk_packet::<u32>();
    assert!(!p.peek());
    p.send(1);
    assert!(p.peek());
}

#[test]
fn sender_terminate_wakes_blocked_receiver() {
    let mut p = mk_packet::<u32>();
    assert!(matches!(p.try_recv_step(6, true), RecvStep::Wait));
    assert_eq!(p.sender_terminate(), Some(6));
    assert_eq!(p.header.state, State::Terminated);
    assert!(matches!(p.try_recv_step(6, false), RecvStep::Closed));
    assert_eq!(p.header.state, State::Terminated);
}

#[test]
fn buffer_release_reports_last_reference() {
    let mut b = BufferHeader::new();
    b.acquire();
    b.acquire();
    assert_eq!(b.ref_count, 2);
    assert!(!b.release());
    assert!(!b.freed);
    assert!(b.release());
    assert!(b.freed);
    assert_eq!(b.ref_count, 0);
}

#[test]
fn sent_value_is_received_exactly_once() {
    let mut pipes: Pipes<u64> = Pipes::new();
    let (s, r) = pipes.entangle();
    let id = r.header();
    assert_eq!(pipes.send(s, 42), SendOutcome::Delivered);
    match pipes.try_recv(r, 1) {
        TryRecv::Received(v) => assert_eq!(v, 42),
        _ => panic!("expected the message"),
    }
    assert!(pipes.buffer_freed(id));
}

#[test]
fn receiver_that_waits_is_woken_by_send() {
    let mut pipes: Pipes<u64> = Pipes::new();
    let (s, r) = pipes.entangle();
    let r = match pipes.try_recv(r, 9) {
        TryRecv::Pending(r) => r,
        _ => panic!("nothing was sent yet"),
    };
    assert_eq!(pipes.send(s, 5), SendOutcome::Wake(9));
    match pipes.try_recv(r, 9) {
        TryRecv::Received(v) => assert_eq!(v, 5),
        _ => panic!("expected the message"),
    }
}

#[test]
fn recv_takes_waiting_message() {
    let mut pipes: Pipes<String> = Pipes::new();
    let (s, r) = pipes.entangle();
    pipes.send(s, "hello".to_string());
    assert_eq!(pipes.recv(r, 1), "hello");
}

#[test]
fn dropped_sender_gives_no_message() {
    let mut pipes: Pipes<u64> = Pipes::new();
    let (s, r) = pipes.entangle();
    assert_eq!(pipes.close_send(s), None);
    assert!(matches!(pipes.try_recv(r, 1), TryRecv::Closed));
}

#[test]
fn dropped_sender_wakes_waiting_receiver() {
    let mut pipes: Pipes<u64> = Pipes::new();
    let (s, r) = pipes.entangle();
    let r = match pipes.try_recv(r, 3) {
        TryRecv::Pending(r) => r,
        _ => panic!("nothing was sent yet"),
    };
    assert_eq!(pipes.close_send(s), Some(3));
    assert!(matches!(pipes.try_recv(r, 3), TryRecv::Closed));
}

#[test]
fn send_after_receiver_dropped_is_discarded() {
    let mut pipes: Pipes<u64> = Pipes::new();
    let (s, r) = pipes.entangle();
    let id = s.header();
    pipes.close_recv(r);
    assert!(!pipes.buffer_freed(id));
    assert_eq!(pipes.send(s, 77), SendOutcome::Discarded);
    assert!(pipes.buffer_freed(id));
    assert_eq!(pipes.reclaim(id), Some(77));
}

#[test]
fn buffer_released_after_both_ends_in_either_order() {
    let mut pipes: Pipes<u64> = Pipes::new();
    let (s, r) = pipes.entangle();
    let id = s.header();
    pipes.close_send(s);
    assert!(!pipes.buffer_freed(id));
    pipes.close_recv(r);
    assert!(pipes.buffer_freed(id));

    let (s, r) = pipes.entangle();
    let id = s.header();
    pipes.close_recv(r);
    assert!(!pipes.buffer_freed(id));
    pipes.close_send(s);
    assert!(pipes.buffer_freed(id));
}

#[test]
fn peek_reports_pending_message() {
    let mut pipes: Pipes<u64> = Pipes::new();
    let (s, r) = pipes.entangle();
    assert!(!pipes.peek(&r));
    pipes.send(s, 1);
    assert!(pipes.peek(&r));
}

#[test]
fn bounded_buffer_shares_one_allocation() {
    let mut pipes: Pipes<u64> = Pipes::new();
    let (s, r) = pipes.entangle_buffer(3);
    assert_eq!(s.header(), 0);
    assert_eq!(r.header(), 0);
    let s2 = pipes.send_packet(1);
    let r2 = pipes.recv_packet(1);
    pipes.send(s, 10);
    match pipes.try_recv(r, 1) {
        TryRecv::Received(v) => assert_eq!(v, 10),
        _ => panic!("expected the message"),
    }
    assert!(!pipes.buffer_freed(1));
    pipes.send(s2, 20);
    match pipes.try_recv(r2, 1) {
        TryRecv::Received(v) => assert_eq!(v, 20),
        _ => panic!("expected the message"),
    }
    assert!(pipes.buffer_freed(2));
}
