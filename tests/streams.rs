use pipes::pipe::{Pipes, RecvPacket, TryRecv};
use pipes::select::{Select2, SelectAll, Side};
use pipes::stream::{stream, try_select, Data, Either2, PortRecv, PortSet};

#[derive(Debug, PartialEq)]
enum Msg {
    Text(&'static str),
    Num(i32),
}

#[test]
fn test_select2() {
    let mut pipes: Pipes<Data<Msg>> = Pipes::new();
    let (mut c1, mut p1) = stream(&mut pipes);
    let (mut c2, mut p2) = stream(&mut pipes);

    c1.send(&mut pipes, Msg::Text("abc"));

    match try_select(&mut pipes, &mut p1, &mut p2, 1) {
        Either2::Right(_) => panic!(),
        _ => {}
    }

    c2.send(&mut pipes, Msg::Num(123));
}

#[test]
fn select_between_streams_picks_the_one_with_data() {
    let mut pipes: Pipes<Data<Msg>> = Pipes::new();
    let (mut c1, mut p1) = stream(&mut pipes);
    let (_c2, mut p2) = stream(&mut pipes);
    c1.send(&mut pipes, Msg::Text("abc"));
    match try_select(&mut pipes, &mut p1, &mut p2, 1) {
        Either2::Left(PortRecv::Received(m)) => assert_eq!(m, Msg::Text("abc")),
        other => panic!("unexpected {:?}", other),
    }
    // the other port is untouched and still receives normally
    c1.send(&mut pipes, Msg::Num(5));
    assert!(!p2.peek(&pipes));
    match p1.try_recv(&mut pipes, 1) {
        PortRecv::Received(m) => assert_eq!(m, Msg::Num(5)),
        other => panic!("unexpected {:?}", other),
    }
}

#[test]
fn select_between_idle_streams_waits() {
    let mut pipes: Pipes<Data<u8>> = Pipes::new();
    let (_c1, mut p1) = stream(&mut pipes);
    let (_c2, mut p2) = stream(&mut pipes);
    assert!(matches!(try_select(&mut pipes, &mut p1, &mut p2, 1), Either2::Neither));
}

#[test]
fn stream_delivers_in_order() {
    let mut pipes: Pipes<Data<u32>> = Pipes::new();
    let (mut c, mut p) = stream(&mut pipes);
    for v in 0..5u32 {
        assert_eq!(c.send(&mut pipes, v), None);
    }
    for v in 0..5u32 {
        match p.try_recv(&mut pipes, 1) {
            PortRecv::Received(x) => assert_eq!(x, v),
            other => panic!("unexpected {:?}", other),
        }
    }
    assert!(matches!(p.try_recv(&mut pipes, 1), PortRecv::Pending));
}

#[test]
fn stream_wakes_waiting_port() {
    let mut pipes: Pipes<Data<u32>> = Pipes::new();
    let (mut c, mut p) = stream(&mut pipes);
    assert!(matches!(p.try_recv(&mut pipes, 4), PortRecv::Pending));
    assert_eq!(c.send(&mut pipes, 3), Some(4));
    assert_eq!(p.recv(&mut pipes, 4), 3);
}

#[test]
fn closed_stream_reports_end() {
    let mut pipes: Pipes<Data<u32>> = Pipes::new();
    let (mut c, mut p) = stream(&mut pipes);
    c.send(&mut pipes, 1);
    c.close(&mut pipes);
    assert_eq!(p.recv(&mut pipes, 1), 1);
    assert!(matches!(p.try_recv(&mut pipes, 1), PortRecv::Closed));
}

#[test]
fn send_on_stream_with_dropped_port_is_harmless() {
    let mut pipes: Pipes<Data<u32>> = Pipes::new();
    let (mut c, p) = stream(&mut pipes);
    p.close(&mut pipes);
    assert_eq!(c.send(&mut pipes, 1), None);
    assert_eq!(c.send(&mut pipes, 2), None);
}

#[test]
fn port_set_returns_value_then_end_of_stream() {
    let mut pipes: Pipes<Data<&'static str>> = Pipes::new();
    let mut set = PortSet::new();
    let c1 = set.chan(&mut pipes);
    let c2 = set.chan(&mut pipes);
    let mut c3 = set.chan(&mut pipes);
    c1.close(&mut pipes);
    c2.close(&mut pipes);
    c3.send(&mut pipes, "only");
    c3.close(&mut pipes);
    assert!(set.peek(&pipes));
    match set.try_recv(&mut pipes, 1) {
        PortRecv::Received(v) => assert_eq!(v, "only"),
        other => panic!("unexpected {:?}", other),
    }
    assert!(matches!(set.try_recv(&mut pipes, 1), PortRecv::Closed));
}

#[test]
fn empty_port_set_is_closed() {
    let mut pipes: Pipes<Data<u8>> = Pipes::new();
    let mut set = PortSet::new();
    assert!(!set.peek(&pipes));
    assert!(matches!(set.try_recv(&mut pipes, 1), PortRecv::Closed));
}

#[test]
fn port_set_with_idle_member_waits() {
    let mut pipes: Pipes<Data<u8>> = Pipes::new();
    let mut set = PortSet::new();
    let c1 = set.chan(&mut pipes);
    let _c2 = set.chan(&mut pipes);
    c1.close(&mut pipes);
    assert!(matches!(set.try_recv(&mut pipes, 1), PortRecv::Pending));
}

#[test]
fn shared_channel_delivers_every_value_once() {
    // two producers take turns holding the one channel
    let n: u32 = 10;
    let mut pipes: Pipes<Data<(u8, u32)>> = Pipes::new();
    let (mut c, mut p) = stream(&mut pipes);
    for i in 0..n {
        c.send(&mut pipes, (0, i));
        if i % 3 != 0 {
            c.send(&mut pipes, (1, i));
        }
    }
    for i in 0..n {
        if i % 3 == 0 {
            c.send(&mut pipes, (1, i));
        }
    }
    let mut seen: Vec<(u8, u32)> = Vec::new();
    loop {
        match p.try_recv(&mut pipes, 1) {
            PortRecv::Received(x) => seen.push(x),
            _ => break,
        }
    }
    assert_eq!(seen.len(), 2 * n as usize);
    for who in 0..2u8 {
        let mine: Vec<u32> = seen.iter().filter(|x| x.0 == who).map(|x| x.1).collect();
        assert_eq!(mine.len(), n as usize);
        let mut sorted = mine.clone();
        sorted.sort();
        sorted.dedup();
        assert_eq!(sorted.len(), n as usize);
        if who == 0 {
            assert_eq!(mine, (0..n).collect::<Vec<u32>>());
        }
    }
    let first: Vec<u32> = seen.iter().filter(|x| x.0 == 1).map(|x| x.1).collect();
    assert_eq!(first, vec![1, 2, 4, 5, 7, 8, 0, 3, 6, 9]);
}

fn pending(pipes: &mut Pipes<u64>, r: RecvPacket) -> RecvPacket {
    match pipes.try_recv(r, 1) {
        TryRecv::Pending(r) => r,
        _ => panic!("expected to wait"),
    }
}

#[test]
fn wait_many_picks_only_ready_endpoint() {
    let mut pipes: Pipes<u64> = Pipes::new();
    let (_s0, r0) = pipes.entangle();
    let (s1, r1) = pipes.entangle();
    let (_s2, r2) = pipes.entangle();
    pipes.send(s1, 4);
    let ids = vec![r0.header(), r1.header(), r2.header()];
    assert_eq!(pipes.wait_many(&ids, 1), Some(1));
    assert!(!pipes.peek(&r0));
    assert!(pipes.peek(&r1));
    assert!(!pipes.peek(&r2));
    let r0 = pending(&mut pipes, r0);
    let _ = r0;
}

#[test]
fn wait_many_sleeps_then_wakes_on_listed_packet() {
    let mut pipes: Pipes<u64> = Pipes::new();
    let (_s0, r0) = pipes.entangle();
    let (s1, r1) = pipes.entangle();
    let ids = vec![r0.header(), r1.header()];
    assert_eq!(pipes.wait_many(&ids, 2), None);
    assert_eq!(pipes.send(s1, 6), pipes::packet::SendOutcome::Wake(2));
    assert_eq!(pipes.wake_many(&ids, 99), None);
    assert_eq!(pipes.wake_many(&ids, r1.header()), Some(1));
    assert!(!pipes.peek(&r0));
    assert!(pipes.peek(&r1));
}

#[test]
fn select2_receives_from_ready_side() {
    let mut pipes: Pipes<u64> = Pipes::new();
    let (_sa, a) = pipes.entangle();
    let (sb, b) = pipes.entangle();
    pipes.send(sb, 12);
    match pipes.select2(a, b, 1) {
        Select2::Right(a, Some(v)) => {
            assert_eq!(v, 12);
            assert!(!pipes.peek(&a));
        },
        _ => panic!("expected the second endpoint"),
    }
}

#[test]
fn select2_reports_closed_side() {
    let mut pipes: Pipes<u64> = Pipes::new();
    let (sa, a) = pipes.entangle();
    let (_sb, b) = pipes.entangle();
    pipes.close_send(sa);
    assert!(matches!(pipes.select2(a, b, 1), Select2::Left(None, _)));
}

#[test]
fn select2i_prefers_first_when_both_ready() {
    let mut pipes: Pipes<u64> = Pipes::new();
    let (sa, a) = pipes.entangle();
    let (sb, b) = pipes.entangle();
    pipes.send(sa, 1);
    pipes.send(sb, 2);
    assert_eq!(pipes.select2i(&a, &b, 1), Some(Side::Left));
}

#[test]
fn select_keeps_order_of_remaining() {
    let mut pipes: Pipes<u64> = Pipes::new();
    let mut eps = Vec::new();
    let mut sends = Vec::new();
    for _ in 0..4 {
        let (s, r) = pipes.entangle();
        sends.push(s);
        eps.push(r);
    }
    let ids: Vec<usize> = eps.iter().map(|r| r.header()).collect();
    let s2 = sends.remove(2);
    pipes.send(s2, 30);
    assert_eq!(pipes.selecti(&eps, 1), Some(2));
    match pipes.select(eps, 1) {
        SelectAll::Ready(k, v, rest) => {
            assert_eq!(k, 2);
            assert_eq!(v, Some(30));
            let left: Vec<usize> = rest.iter().map(|r| r.header()).collect();
            assert_eq!(left, vec![ids[0], ids[1], ids[3]]);
        },
        SelectAll::Waiting(_) => panic!("one endpoint was ready"),
    }
}

#[test]
fn port_set_recv_skips_closed_members() {
    let mut pipes: Pipes<Data<u32>> = Pipes::new();
    let mut set = PortSet::new();
    let c1 = set.chan(&mut pipes);
    let mut c2 = set.chan(&mut pipes);
    c1.close(&mut pipes);
    c2.send(&mut pipes, 21);
    assert_eq!(set.recv(&mut pipes, 1), 21);
    assert!(matches!(set.try_recv(&mut pipes, 1), PortRecv::Pending));
}
