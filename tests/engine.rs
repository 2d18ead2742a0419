use usertcp::event::{EventBridge, TCPEventKind, WaitError};
use usertcp::retransmit::{MAX_TRANSMITTING, RETRANSMITTING_TIMEOUT};
use usertcp::segment::{compute_checksum, encode, parse, verify_checksum, Segment, ACK, FIN, SYN};
use usertcp::seqnum::{seq_add, seq_distance, seq_le, seq_lt};
use usertcp::socket::{SockID, Socket, TcpStatus};
use usertcp::table::{SocketTable, TableError};
use usertcp::tcp::{TcpError, MSS, PORT_END, PORT_MIN, TCP, TIME_WAIT_INTERVAL};

const LOCAL: u32 = 0x0a00_0001;
const REMOTE: u32 = 0x0a00_0002;

fn conn() -> SockID {
    SockID { local_addr: LOCAL, remote_addr: REMOTE, local_port: 40000, remote_port: 80 }
}

fn peer_segment(id: SockID, seq: u32, ack: u32, flags: u8, payload: Vec<u8>) -> Vec<u8> {
    let seg = Segment {
        src_port: id.remote_port,
        dst_port: id.local_port,
        seq,
        ack,
        flags,
        window: 8192,
        payload,
    };
    encode(id.remote_addr, id.local_addr, &seg)
}

fn status_of(tcp: &TCP, id: SockID) -> Option<TcpStatus> {
    tcp.table.find(id).map(|i| tcp.table.sockets[i].status)
}

fn sock_of(tcp: &TCP, id: SockID) -> &Socket {
    &tcp.table.sockets[tcp.table.find(id).unwrap()]
}

/// Opens `conn()` with ISN 1000 and completes the handshake with a peer ISN of 500.
fn established() -> TCP {
    let mut tcp = TCP::new();
    let id = conn();
    tcp.open_active(id, 1000, 0).unwrap();
    let out = tcp.receive_datagram(REMOTE, LOCAL, &peer_segment(id, 500, 1001, SYN | ACK, vec![]), 7, 0);
    assert_eq!(out.len(), 1);
    assert_eq!(tcp.events.poll(id, TCPEventKind::ConnectionCompleted), Some(Ok(())));
    tcp
}

#[test]
fn sequence_comparison_wraps() {
    assert!(seq_lt(0xFFFF_FFF0, 0x0000_0010));
    assert!(seq_le(0xFFFF_FFF0, 0x0000_0010));
    assert!(!seq_le(0x0000_0010, 0xFFFF_FFF0));
    assert!(seq_lt(1, 2));
    assert!(!seq_lt(5, 5));
    assert!(seq_le(5, 5));
    assert_eq!(seq_distance(0xFFFF_FFF0, 0x10), 0x20);
    assert_eq!(seq_add(0xFFFF_FFF0, 0x20), 0x10);
    assert_eq!(seq_add(1, 2), 3);
}

#[test]
fn checksum_matches_reference_value() {
    let seg = Segment { src_port: 40000, dst_port: 80, seq: 1000, ack: 0, flags: SYN, window: 65535, payload: vec![] };
    let bytes = encode(LOCAL, REMOTE, &seg);
    assert_eq!(bytes.len(), 20);
    assert_eq!(u16::from_be_bytes([bytes[16], bytes[17]]), 0xfb67);
    assert_eq!(compute_checksum(LOCAL, REMOTE, &bytes), 0xfb67);
    assert!(verify_checksum(LOCAL, REMOTE, &bytes));
    assert!(!verify_checksum(REMOTE, LOCAL + 1, &bytes));
}

#[test]
fn encode_then_parse_round_trips() {
    let seg = Segment { src_port: 1, dst_port: 2, seq: 0xDEAD_BEEF, ack: 7, flags: ACK | FIN, window: 300, payload: vec![1, 2, 3] };
    let bytes = encode(LOCAL, REMOTE, &seg);
    assert_eq!(bytes.len(), 23);
    let back = parse(&bytes).unwrap();
    assert_eq!(back.src_port, 1);
    assert_eq!(back.dst_port, 2);
    assert_eq!(back.seq, 0xDEAD_BEEF);
    assert_eq!(back.ack, 7);
    assert_eq!(back.flags, ACK | FIN);
    assert_eq!(back.window, 300);
    assert_eq!(back.payload, vec![1, 2, 3]);
    assert!(verify_checksum(LOCAL, REMOTE, &bytes));
    assert!(parse(&vec![0u8; 19]).is_none());
}

#[test]
fn handshake_completes_connection() {
    let mut tcp = TCP::new();
    let id = conn();
    let syn = tcp.open_active(id, 1000, 0).unwrap();
    let s = parse(&syn.bytes).unwrap();
    assert_eq!(syn.dst_addr, REMOTE);
    assert_eq!(s.seq, 1000);
    assert_eq!(s.flags, SYN);
    assert_eq!(status_of(&tcp, id), Some(TcpStatus::SynSent));
    assert_eq!(tcp.events.poll(id, TCPEventKind::ConnectionCompleted), None);

    let out = tcp.receive_datagram(REMOTE, LOCAL, &peer_segment(id, 500, 1001, SYN | ACK, vec![]), 7, 1);
    assert_eq!(out.len(), 1);
    let a = parse(&out[0].bytes).unwrap();
    assert_eq!(a.seq, 1001);
    assert_eq!(a.ack, 501);
    assert_eq!(a.flags, ACK);
    assert!(verify_checksum(LOCAL, REMOTE, &out[0].bytes));
    assert_eq!(status_of(&tcp, id), Some(TcpStatus::Established));
    assert!(sock_of(&tcp, id).retransmission_queue.is_empty());
    assert_eq!(tcp.events.poll(id, TCPEventKind::ConnectionCompleted), Some(Ok(())));
}

#[test]
fn simultaneous_open_waits_in_syn_rcvd() {
    let mut tcp = TCP::new();
    let id = conn();
    tcp.open_active(id, 1000, 0).unwrap();
    let out = tcp.receive_datagram(REMOTE, LOCAL, &peer_segment(id, 500, 0, SYN, vec![]), 7, 1);
    assert_eq!(out.len(), 1);
    let r = parse(&out[0].bytes).unwrap();
    assert_eq!(r.seq, 1000);
    assert_eq!(r.ack, 501);
    assert_eq!(r.flags, SYN | ACK);
    assert_eq!(status_of(&tcp, id), Some(TcpStatus::SynRcvd));
    assert_eq!(tcp.events.poll(id, TCPEventKind::ConnectionCompleted), None);

    let out = tcp.receive_datagram(REMOTE, LOCAL, &peer_segment(id, 501, 1001, ACK, vec![]), 7, 2);
    assert!(out.is_empty());
    assert_eq!(status_of(&tcp, id), Some(TcpStatus::Established));
    assert_eq!(tcp.events.poll(id, TCPEventKind::ConnectionCompleted), Some(Ok(())));
}

#[test]
fn bad_checksum_is_dropped() {
    let mut tcp = TCP::new();
    let id = conn();
    tcp.open_active(id, 1000, 0).unwrap();
    let mut bytes = peer_segment(id, 500, 1001, SYN | ACK, vec![]);
    bytes[16] ^= 0xFF;
    let out = tcp.receive_datagram(REMOTE, LOCAL, &bytes, 7, 1);
    assert!(out.is_empty());
    assert_eq!(status_of(&tcp, id), Some(TcpStatus::SynSent));
    assert_eq!(sock_of(&tcp, id).send_param.unacked_seq, 1000);
    assert_eq!(tcp.events.poll(id, TCPEventKind::ConnectionCompleted), None);
    assert_eq!(tcp.events.poll(id, TCPEventKind::ConnectionAborted), None);
    let out = tcp.receive_datagram(REMOTE, LOCAL, &vec![1, 2, 3], 7, 1);
    assert!(out.is_empty());
}

#[test]
fn retransmission_exhaustion_aborts() {
    let mut tcp = TCP::new();
    let id = conn();
    let syn = tcp.open_active(id, 1000, 0).unwrap();
    assert!(tcp.retransmit_due(RETRANSMITTING_TIMEOUT - 1).is_empty());
    let mut now = 0;
    for attempt in 1..=MAX_TRANSMITTING {
        now += RETRANSMITTING_TIMEOUT;
        let out = tcp.retransmit_due(now);
        assert_eq!(out.len(), 1);
        assert_eq!(out[0].bytes, syn.bytes);
        assert_eq!(sock_of(&tcp, id).retransmission_queue[0].attempts, attempt);
        assert_eq!(tcp.events.poll(id, TCPEventKind::ConnectionCompleted), None);
    }
    now += RETRANSMITTING_TIMEOUT;
    assert!(tcp.retransmit_due(now).is_empty());
    assert_eq!(status_of(&tcp, id), Some(TcpStatus::Aborted));
    assert!(sock_of(&tcp, id).retransmission_queue.is_empty());
    assert_eq!(
        tcp.events.poll(id, TCPEventKind::ConnectionCompleted),
        Some(Err(WaitError::Aborted))
    );
    assert!(matches!(tcp.close(id, now), Ok(None)));
    assert_eq!(status_of(&tcp, id), None);
}

#[test]
fn large_send_is_split_and_retired() {
    let mut tcp = established();
    let id = conn();
    let data: Vec<u8> = (0..3000u32).map(|i| (i % 251) as u8).collect();
    let out = tcp.send(id, &data, 5).unwrap();
    assert_eq!(out.len(), 3);
    let mut expect_seq = 1001u32;
    let mut off = 0usize;
    for (k, o) in out.iter().enumerate() {
        let s = parse(&o.bytes).unwrap();
        assert_eq!(s.seq, expect_seq);
        assert_eq!(s.ack, 501);
        let want = if k < 2 { MSS } else { 3000 - 2 * MSS };
        assert_eq!(s.payload.len(), want);
        assert_eq!(s.payload, data[off..off + want].to_vec());
        expect_seq += want as u32;
        off += want;
    }
    let sock = sock_of(&tcp, id);
    assert_eq!(sock.send_param.next, 4001);
    assert_eq!(sock.retransmission_queue.len(), 3);
    assert_eq!(sock.retransmission_queue[1].seq, 1001 + MSS as u32);

    // A partial acknowledgment retires the first segment only.
    let ack1 = 1001 + MSS as u32;
    tcp.receive_datagram(REMOTE, LOCAL, &peer_segment(id, 501, ack1, ACK, vec![]), 7, 6);
    assert_eq!(sock_of(&tcp, id).retransmission_queue.len(), 2);
    assert_eq!(tcp.events.poll(id, TCPEventKind::Acked), Some(Ok(())));

    tcp.receive_datagram(REMOTE, LOCAL, &peer_segment(id, 501, 4001, ACK, vec![]), 7, 7);
    let sock = sock_of(&tcp, id);
    assert!(sock.retransmission_queue.is_empty());
    assert_eq!(sock.send_param.unacked_seq, 4001);
}

#[test]
fn data_is_delivered_and_acknowledged() {
    let mut tcp = established();
    let id = conn();
    let out = tcp.receive_datagram(REMOTE, LOCAL, &peer_segment(id, 501, 1001, ACK | 0x08, vec![9, 8, 7]), 7, 3);
    assert_eq!(out.len(), 1);
    let a = parse(&out[0].bytes).unwrap();
    assert_eq!(a.ack, 504);
    assert_eq!(a.seq, 1001);
    assert_eq!(tcp.events.poll(id, TCPEventKind::DataArrived), Some(Ok(())));
    assert_eq!(tcp.receive(id), Ok(vec![9, 8, 7]));
    assert_eq!(tcp.receive(id), Ok(vec![]));

    // Out of order: acknowledged again, not delivered.
    let out = tcp.receive_datagram(REMOTE, LOCAL, &peer_segment(id, 600, 1001, ACK, vec![1]), 7, 4);
    assert_eq!(parse(&out[0].bytes).unwrap().ack, 504);
    assert_eq!(tcp.receive(id), Ok(vec![]));
    assert_eq!(tcp.events.poll(id, TCPEventKind::DataArrived), None);
}

#[test]
fn close_from_established_reaches_closed() {
    let mut tcp = established();
    let id = conn();
    let fin = tcp.close(id, 10).unwrap().unwrap();
    let f = parse(&fin.bytes).unwrap();
    assert_eq!(f.flags, FIN | ACK);
    assert_eq!(f.seq, 1001);
    assert_eq!(status_of(&tcp, id), Some(TcpStatus::FinWait1));

    tcp.receive_datagram(REMOTE, LOCAL, &peer_segment(id, 501, 1002, ACK, vec![]), 7, 11);
    assert_eq!(status_of(&tcp, id), Some(TcpStatus::FinWait2));

    let out = tcp.receive_datagram(REMOTE, LOCAL, &peer_segment(id, 501, 1002, FIN | ACK, vec![]), 7, 12);
    assert_eq!(status_of(&tcp, id), Some(TcpStatus::TimeWait));
    assert_eq!(out.len(), 1);
    let a = parse(&out[0].bytes).unwrap();
    assert_eq!(a.flags, ACK);
    assert_eq!(a.ack, 502);
    assert_eq!(tcp.events.poll(id, TCPEventKind::ConnectionClosed), Some(Ok(())));

    tcp.reap_time_wait(12 + TIME_WAIT_INTERVAL - 1);
    assert_eq!(status_of(&tcp, id), Some(TcpStatus::TimeWait));
    tcp.reap_time_wait(12 + TIME_WAIT_INTERVAL);
    assert_eq!(status_of(&tcp, id), None);
}

#[test]
fn simultaneous_close_goes_through_closing() {
    let mut tcp = established();
    let id = conn();
    tcp.close(id, 10).unwrap();
    tcp.receive_datagram(REMOTE, LOCAL, &peer_segment(id, 501, 1001, FIN | ACK, vec![]), 7, 11);
    assert_eq!(status_of(&tcp, id), Some(TcpStatus::Closing));
    tcp.receive_datagram(REMOTE, LOCAL, &peer_segment(id, 502, 1002, ACK, vec![]), 7, 12);
    assert_eq!(status_of(&tcp, id), Some(TcpStatus::TimeWait));
}

#[test]
fn passive_close_through_last_ack() {
    let mut tcp = established();
    let id = conn();
    let out = tcp.receive_datagram(REMOTE, LOCAL, &peer_segment(id, 501, 1001, FIN | ACK, vec![]), 7, 3);
    assert_eq!(parse(&out[0].bytes).unwrap().ack, 502);
    assert_eq!(status_of(&tcp, id), Some(TcpStatus::CloseWait));
    assert_eq!(tcp.events.poll(id, TCPEventKind::DataArrived), Some(Ok(())));
    let fin = tcp.close(id, 4).unwrap().unwrap();
    assert_eq!(parse(&fin.bytes).unwrap().flags, FIN | ACK);
    assert_eq!(status_of(&tcp, id), Some(TcpStatus::LastAck));
    tcp.receive_datagram(REMOTE, LOCAL, &peer_segment(id, 502, 1002, ACK, vec![]), 7, 5);
    assert_eq!(status_of(&tcp, id), None);
    assert_eq!(tcp.events.poll(id, TCPEventKind::ConnectionClosed), Some(Ok(())));
}

#[test]
fn listen_and_accept() {
    let mut tcp = TCP::new();
    let lid = tcp.listen(LOCAL, 80).unwrap();
    assert_eq!(tcp.listen(LOCAL, 80), Err(TcpError::AlreadyExists));
    let child = SockID { local_addr: LOCAL, remote_addr: REMOTE, local_port: 80, remote_port: 5555 };
    let out = tcp.receive_datagram(REMOTE, LOCAL, &peer_segment(child, 300, 0, SYN, vec![]), 9000, 1);
    assert_eq!(out.len(), 1);
    let sa = parse(&out[0].bytes).unwrap();
    assert_eq!(sa.flags, SYN | ACK);
    assert_eq!(sa.seq, 9000);
    assert_eq!(sa.ack, 301);
    assert_eq!(status_of(&tcp, child), Some(TcpStatus::SynRcvd));
    assert_eq!(tcp.accept(lid), Ok(None));

    tcp.receive_datagram(REMOTE, LOCAL, &peer_segment(child, 301, 9001, ACK, vec![]), 7, 2);
    assert_eq!(status_of(&tcp, child), Some(TcpStatus::Established));
    assert_eq!(tcp.events.poll(lid, TCPEventKind::ConnectionCompleted), Some(Ok(())));
    assert_eq!(tcp.accept(lid), Ok(Some(child)));
    assert_eq!(tcp.accept(lid), Ok(None));
}

#[test]
fn connect_picks_free_port_in_range() {
    let mut tcp = TCP::new();
    let (id, syn) = tcp.connect(LOCAL, REMOTE, 80, 0).unwrap();
    assert!(id.local_port >= PORT_MIN && id.local_port < PORT_END);
    let isn = sock_of(&tcp, id).send_param.initial_seq;
    assert!(isn >= 1 && isn < 1 << 31);
    assert_eq!(parse(&syn.bytes).unwrap().seq, isn);
    let (id2, _) = tcp.connect(LOCAL, REMOTE, 80, 0).unwrap();
    assert_ne!(id.local_port, id2.local_port);
    assert!(tcp.table.port_in_use(id.local_port));
    assert!(tcp.table.port_in_use(id2.local_port));
}

#[test]
fn table_rejects_duplicates() {
    let mut t = SocketTable::new();
    assert_eq!(t.insert(Socket::new(conn(), TcpStatus::Closed)), Ok(()));
    assert_eq!(t.insert(Socket::new(conn(), TcpStatus::Listen)), Err(TableError::AlreadyExists));
    assert_eq!(t.len(), 1);
    assert!(t.contains(conn()));
    assert!(t.remove(conn()).is_some());
    assert!(t.remove(conn()).is_none());
    assert_eq!(t.len(), 0);
}

#[test]
fn lookup_falls_back_to_listener() {
    let mut t = SocketTable::new();
    let lid = SockID { local_addr: LOCAL, remote_addr: 0, local_port: 80, remote_port: 0 };
    t.insert(Socket::new(lid, TcpStatus::Listen)).unwrap();
    let other = SockID { local_addr: LOCAL, remote_addr: REMOTE, local_port: 80, remote_port: 1234 };
    assert_eq!(t.lookup(other), Some(0));
    t.insert(Socket::new(other, TcpStatus::Established)).unwrap();
    assert_eq!(t.lookup(other), Some(1));
    let stranger = SockID { local_addr: LOCAL, remote_addr: REMOTE, local_port: 81, remote_port: 1 };
    assert_eq!(t.lookup(stranger), None);
}

#[test]
fn events_are_kept_per_connection_and_kind() {
    let mut ev = EventBridge::new();
    let id = conn();
    ev.publish(id, TCPEventKind::Acked);
    ev.publish(id, TCPEventKind::DataArrived);
    ev.publish(id, TCPEventKind::Acked);
    assert_eq!(ev.pending.len(), 2);
    assert!(ev.take(id, TCPEventKind::DataArrived));
    assert!(!ev.take(id, TCPEventKind::DataArrived));
    assert_eq!(ev.poll(id, TCPEventKind::Acked), Some(Ok(())));
    assert_eq!(ev.poll(id, TCPEventKind::Acked), None);
}

#[test]
fn operations_on_unknown_or_unready_connections_fail() {
    let mut tcp = TCP::new();
    let id = conn();
    assert_eq!(tcp.send(id, &vec![1], 0).err(), Some(TcpError::NotFound));
    assert_eq!(tcp.close(id, 0).err(), Some(TcpError::NotFound));
    assert_eq!(tcp.receive(id), Err(TcpError::NotFound));
    assert_eq!(tcp.accept(id), Err(TcpError::NotFound));
    tcp.open_active(id, 1000, 0).unwrap();
    assert_eq!(tcp.open_active(id, 1, 0).err(), Some(TcpError::AlreadyExists));
    assert_eq!(tcp.send(id, &vec![1], 0).err(), Some(TcpError::InvalidState));
}

#[test]
fn port_exhaustion_is_reported() {
    let mut tcp = TCP::new();
    for p in PORT_MIN..PORT_END {
        tcp.listen(LOCAL, p).unwrap();
    }
    assert_eq!(tcp.select_unused_port(), Err(TcpError::PortExhaustion));
    assert_eq!(tcp.connect(LOCAL, REMOTE, 80, 0).err(), Some(TcpError::PortExhaustion));
    assert_eq!(tcp.table.len(), (PORT_END - PORT_MIN) as usize);
}

#[test]
fn passive_open_draws_its_own_isn() {
    let mut tcp = TCP::new();
    tcp.listen(LOCAL, 80).unwrap();
    let child = SockID { local_addr: LOCAL, remote_addr: REMOTE, local_port: 80, remote_port: 6000 };
    let out = tcp.handle_datagram(REMOTE, LOCAL, &peer_segment(child, 41, 0, SYN, vec![]), 1);
    assert_eq!(out.len(), 1);
    let sa = parse(&out[0].bytes).unwrap();
    assert_eq!(sa.ack, 42);
    assert!(sa.seq >= 1 && sa.seq < 1 << 31);
    assert_eq!(sock_of(&tcp, child).send_param.initial_seq, sa.seq);
    assert_eq!(sock_of(&tcp, child).send_param.next, sa.seq + 1);
    let mut bad = peer_segment(child, 41, 0, SYN, vec![]);
    bad[0] ^= 1;
    assert!(tcp.handle_datagram(REMOTE, LOCAL, &bad, 1).is_empty());
}

#[test]
fn half_the_sequence_space_in_flight_is_refused() {
    let mut tcp = established();
    let id = conn();
    let i = tcp.table.find(id).unwrap();
    let unacked = tcp.table.sockets[i].send_param.unacked_seq;
    tcp.table.sockets[i].send_param.next = unacked.wrapping_add(0x7FFF_FFFE);
    assert_eq!(tcp.send(id, &vec![1, 2], 1).err(), Some(TcpError::SequenceSpaceFull));
    assert!(tcp.send(id, &vec![1], 1).is_ok());
    assert_eq!(tcp.close(id, 1).err(), Some(TcpError::SequenceSpaceFull));
    assert_eq!(status_of(&tcp, id), Some(TcpStatus::Established));
}

#[test]
fn free_range_always_yields_a_port() {
    let tcp = TCP::new();
    for _ in 0..50 {
        let p = tcp.select_unused_port().unwrap();
        assert!(p >= PORT_MIN && p < PORT_END);
    }
}
