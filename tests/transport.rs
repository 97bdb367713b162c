use ucp::endpoint::{parse_datagram, Incoming, PeerAddr, UcpClient, UcpServer};
use ucp::packet::{UcpPacket, CMD_ACK, CMD_DATA, CMD_HEARTBEAT, CMD_HEARTBEAT_ACK, CMD_SYN, CMD_SYN_ACK};
use ucp::stream::{UcpState, UcpStream, DEFAULT_RTO};

const PEER: PeerAddr = PeerAddr { ip: 0x7f00_0001, port: 4000 };

/// Parses each datagram waiting in `from` and hands it to `to`.
fn pump(from: &mut UcpStream, to: &mut UcpStream, now: i64) -> Vec<UcpPacket> {
    let mut seen = Vec::new();
    for d in from.take_outbox() {
        let p = parse_datagram(&d).unwrap();
        seen.push(parse_datagram(&d).unwrap());
        to.process_packet(p, now);
    }
    seen
}

fn parsed(ds: &[Vec<u8>]) -> Vec<UcpPacket> {
    ds.iter().map(|d| parse_datagram(d).unwrap()).collect()
}

/// Two streams through the handshake; the client's SYN goes out at `t`.
fn established(t: i64) -> (UcpStream, UcpStream) {
    let mut client = UcpStream::new(0);
    client.connecting(77, 0);
    assert!(client.update(t));
    let mut server = UcpStream::new(0);
    pump(&mut client, &mut server, t);
    assert!(server.update(t));
    pump(&mut server, &mut client, t);
    pump(&mut client, &mut server, t);
    assert_eq!(client.state, UcpState::ESTABLISHED);
    assert_eq!(server.state, UcpState::ESTABLISHED);
    (client, server)
}

fn data(session: u32, seq: u32, payload: &[u8]) -> UcpPacket {
    let mut p = UcpPacket::new();
    p.session_id = session;
    p.seq = seq;
    p.cmd = CMD_DATA;
    assert!(p.payload_write_slice(payload));
    p.pack();
    parse_datagram(p.packed_buffer()).unwrap()
}

fn read_all(s: &mut UcpStream) -> Vec<u8> {
    let mut out = Vec::new();
    let mut buf = [0u8; 7];
    loop {
        let n = s.recv(&mut buf);
        if n == 0 {
            return out;
        }
        out.extend_from_slice(&buf[..n]);
    }
}

#[test]
fn clean_handshake() {
    let mut client = UcpStream::new(0);
    client.connecting(0x5151, 0);
    assert_eq!(client.state, UcpState::CONNECTING);
    assert!(client.update(0));
    let syn_datagrams = client.take_outbox();
    let syn = parsed(&syn_datagrams);
    assert_eq!(syn.len(), 1);
    assert_eq!((syn[0].cmd, syn[0].seq, syn[0].session_id, syn[0].timestamp), (CMD_SYN, 1, 0x5151, 0));

    let mut server = UcpServer::new(0);
    assert_eq!(server.process_packet(&syn_datagrams[0], PEER, 0), Incoming::Accepted);
    assert_eq!(server.streams.len(), 1);
    let s = &mut server.streams[0].1;
    assert_eq!(s.state, UcpState::ACCEPTING);
    assert_eq!(s.session_id, 0x5151);
    assert_eq!(s.una, 2);
    assert!(s.update(5));
    let syn_ack_datagrams = s.take_outbox();
    let mut syn_ack = parsed(&syn_ack_datagrams);
    assert_eq!(syn_ack.len(), 1);
    assert_eq!((syn_ack[0].cmd, syn_ack[0].seq, syn_ack[0].session_id, syn_ack[0].timestamp), (CMD_SYN_ACK, 1, 0x5151, 5));
    assert_eq!(syn_ack[0].payload_read_u32(), 1);
    assert_eq!(syn_ack[0].payload_read_u32(), 0);

    client.process_packet(parse_datagram(&syn_ack_datagrams[0]).unwrap(), 8);
    assert_eq!(client.state, UcpState::ESTABLISHED);
    assert_eq!(client.una, 2);
    let ack_datagrams = client.take_outbox();
    let mut ack = parsed(&ack_datagrams);
    assert_eq!(ack.len(), 1);
    assert_eq!(ack[0].cmd, CMD_ACK);
    assert_eq!(ack[0].payload_read_u32(), 1);
    assert_eq!(ack[0].payload_read_u32(), 5);

    assert_eq!(server.process_packet(&ack_datagrams[0], PEER, 9), Incoming::Delivered);
    assert_eq!(server.streams[0].1.state, UcpState::ESTABLISHED);
    assert_eq!(server.streams[0].1.una, 2);
}

#[test]
fn handshake_through_endpoints() {
    let mut client = UcpClient::new(0);
    assert_ne!(client.ucp.session_id, 0);
    assert!(client.update(10));
    let mut server = UcpServer::new(0);
    for d in client.ucp.take_outbox() {
        assert_eq!(server.process_packet(&d, PEER, 10), Incoming::Accepted);
    }
    assert!(server.update(20).is_empty());
    for d in server.streams[0].1.take_outbox() {
        assert!(client.process_packet(&d, 20));
    }
    for d in client.ucp.take_outbox() {
        assert_eq!(server.process_packet(&d, PEER, 30), Incoming::Delivered);
    }
    assert_eq!(client.ucp.state, UcpState::ESTABLISHED);
    assert_eq!(server.streams[0].1.state, UcpState::ESTABLISHED);
    assert_eq!(client.ucp.una, 2);
    assert_eq!(server.streams[0].1.una, 2);
    assert_eq!(server.streams[0].1.session_id, client.ucp.session_id);
}

#[test]
fn data_and_ack() {
    let (mut client, mut server) = established(0);
    let rto_before = client.rto;
    client.send(b"hello", 100);
    assert!(client.update(100));
    let sent = pump(&mut client, &mut server, 110);
    assert_eq!(sent.len(), 1);
    assert_eq!((sent[0].cmd, sent[0].seq), (CMD_DATA, 2));
    assert_eq!(read_all(&mut server), b"hello".to_vec());
    assert!(server.update(120));
    let mut acks = pump(&mut server, &mut client, 150);
    assert_eq!(acks.len(), 1);
    assert_eq!(acks[0].cmd, CMD_ACK);
    assert_eq!(acks[0].payload_read_u32(), 2);
    assert_eq!(acks[0].payload_read_u32(), 100);
    assert!(client.send_queue.is_empty());
    assert_eq!(client.rto, (rto_before + 50) / 2);
}

#[test]
fn rto_update_from_one_sample() {
    let mut s = UcpStream::new(0);
    assert_eq!(s.rto, DEFAULT_RTO);
    assert!(!s.process_an_ack(9, 10, 70));
    assert_eq!(s.rto, (100 + 60) / 2);
    assert!(!s.process_an_ack(9, 500, 70));
    assert_eq!(s.rto, 80 / 2);
}

#[test]
fn fast_skip_resends_early() {
    let (mut client, _server) = established(0);
    for (i, t) in [200i64, 201, 202].iter().enumerate() {
        client.send(&[i as u8; 3], *t);
        assert!(client.update(*t));
    }
    client.take_outbox();
    let seqs: Vec<u32> = client.send_queue.iter().map(|p| p.seq).collect();
    assert_eq!(seqs, vec![2, 3, 4]);
    assert!(client.process_an_ack(3, 201, 203));
    assert!(client.process_an_ack(4, 202, 203));
    assert_eq!(client.send_queue.len(), 1);
    assert_eq!(client.send_queue[0].seq, 2);
    assert_eq!(client.send_queue[0].skip_times, 2);
    assert!(client.rto > 3);
    assert!(client.update(204));
    let out = parsed(&client.take_outbox());
    assert_eq!(out.len(), 1);
    assert_eq!((out[0].cmd, out[0].seq, out[0].xmit, out[0].timestamp), (CMD_DATA, 2, 1, 204));
    assert_eq!(client.send_queue[0].skip_times, 0);
}

#[test]
fn timeout_resend_after_rto() {
    let (mut client, _server) = established(0);
    client.send(b"x", 1000);
    assert!(client.update(1000));
    client.take_outbox();
    let rto = client.rto as i64;
    assert!(client.update(1000 + rto - 1));
    assert!(parsed(&client.take_outbox()).iter().all(|p| p.cmd != CMD_DATA));
    assert!(client.update(1000 + rto));
    let out = parsed(&client.take_outbox());
    assert!(out.iter().any(|p| p.cmd == CMD_DATA && p.seq == 2 && p.xmit == 1));
}

#[test]
fn heartbeat_keepalive() {
    let (mut client, mut server) = established(0);
    client.take_outbox();
    assert!(client.update(2499));
    assert!(client.take_outbox().is_empty());
    assert!(client.update(2500));
    let hb = pump(&mut client, &mut server, 2500);
    assert_eq!(hb.len(), 1);
    assert_eq!(hb[0].cmd, CMD_HEARTBEAT);
    assert_eq!(client.heartbeat, 2500);
    let reply = pump(&mut server, &mut client, 2600);
    assert_eq!(reply.len(), 1);
    assert_eq!(reply[0].cmd, CMD_HEARTBEAT_ACK);
    assert_eq!(client.alive_time, 2600);
    assert!(client.update(2600 + 19_999));
}

#[test]
fn liveness_timeout_removes_stream() {
    let mut server = UcpServer::new(0);
    let mut syn = UcpPacket::new();
    syn.cmd = CMD_SYN;
    syn.seq = 1;
    syn.session_id = 3;
    syn.pack();
    assert_eq!(server.process_packet(syn.packed_buffer(), PEER, 0), Incoming::Accepted);
    assert!(server.update(19_999).is_empty());
    assert_eq!(server.streams.len(), 1);
    let broken = server.update(20_010);
    assert_eq!(broken, vec![PEER]);
    assert!(server.streams.is_empty());
    assert!(server.update(40_000).is_empty());
    let mut hb = UcpPacket::new();
    hb.cmd = CMD_HEARTBEAT;
    hb.session_id = 3;
    hb.pack();
    assert_eq!(server.process_packet(hb.packed_buffer(), PEER, 20_001), Incoming::Unknown);
    assert!(server.streams.is_empty());
}

#[test]
fn stream_update_reports_broken() {
    let mut s = UcpStream::new(0);
    assert!(s.update(19_999));
    assert!(!s.update(20_000));
    assert!(!s.check_if_alive(20_000));
}

#[test]
fn server_ticks_at_most_every_ten_millis() {
    let mut server = UcpServer::new(100);
    assert!(server.update(109).is_empty());
    assert_eq!(server.update_time, 100);
    assert!(server.update(110).is_empty());
    assert_eq!(server.update_time, 110);
}

#[test]
fn server_drops_illegal_and_unknown() {
    let mut server = UcpServer::new(0);
    assert_eq!(server.process_packet(&[1, 2, 3], PEER, 0), Incoming::Illegal);
    let mut p = UcpPacket::new();
    p.cmd = CMD_DATA;
    p.pack();
    assert_eq!(server.process_packet(p.packed_buffer(), PEER, 0), Incoming::Unknown);
    assert!(server.streams.is_empty());
}

#[test]
fn duplicate_data_only_adds_an_ack() {
    let (_client, mut server) = established(0);
    let p = data(77, 2, b"dup");
    server.process_packet(p, 10);
    let una = server.una;
    let acks = server.ack_list.len();
    server.process_packet(data(77, 2, b"dup"), 10);
    assert_eq!(server.una, una);
    assert_eq!(server.ack_list.len(), acks + 1);
    assert_eq!(server.recv_queue.len(), 1);
    assert_eq!(read_all(&mut server), b"dup".to_vec());
    server.process_packet(data(77, 2, b"dup"), 10);
    assert_eq!(read_all(&mut server), Vec::<u8>::new());
    assert_eq!(server.ack_list.len(), acks + 2);
}

#[test]
fn other_session_is_dropped() {
    let (_client, mut server) = established(0);
    server.process_packet(data(78, 2, b"zz"), 10);
    assert!(server.recv_queue.is_empty());
    assert!(server.ack_list.is_empty());
    assert_eq!(server.una, 2);
}

#[test]
fn reordered_data_is_delivered_in_order() {
    let (_client, mut server) = established(0);
    server.process_packet(data(77, 4, b"cc"), 10);
    server.process_packet(data(77, 3, b"bb"), 10);
    assert_eq!(server.una, 2);
    assert_eq!(read_all(&mut server), Vec::<u8>::new());
    server.process_packet(data(77, 2, b"aa"), 10);
    assert_eq!(server.una, 5);
    let seqs: Vec<u32> = server.recv_queue.iter().map(|p| p.seq).collect();
    assert_eq!(seqs, vec![2, 3, 4]);
    assert_eq!(read_all(&mut server), b"aabbcc".to_vec());
    assert!(server.recv_queue.is_empty());
}

#[test]
fn order_survives_sequence_wrap() {
    let (_client, mut server) = established(0);
    server.una = 0xffff_fffe;
    server.process_packet(data(77, 1, b"4"), 10);
    server.process_packet(data(77, 0, b"3"), 10);
    server.process_packet(data(77, 0xffff_ffff, b"2"), 10);
    server.process_packet(data(77, 0xffff_fffe, b"1"), 10);
    assert_eq!(server.una, 2);
    let seqs: Vec<u32> = server.recv_queue.iter().map(|p| p.seq).collect();
    assert_eq!(seqs, vec![0xffff_fffe, 0xffff_ffff, 0, 1]);
    assert_eq!(read_all(&mut server), b"1234".to_vec());
}

#[test]
fn old_data_is_not_delivered_again() {
    let (_client, mut server) = established(0);
    server.process_packet(data(77, 1, b"old"), 10);
    assert!(server.recv_queue.is_empty());
    assert_eq!(server.ack_list.len(), 1);
    assert_eq!(server.una, 2);
}

#[test]
fn send_fills_last_packet_first() {
    let mut s = UcpStream::new(0);
    s.send(&vec![1u8; 1000], 0);
    assert_eq!(s.send_buffer.len(), 1);
    s.send(&vec![2u8; 1000], 0);
    assert_eq!(s.send_buffer.len(), 2);
    assert_eq!(s.send_buffer[0].remaining_load(), 0);
    assert_eq!(s.send_buffer[1].seq, 2);
    assert_eq!(s.seq, 2);
    assert!(!s.is_send_buffer_overflow());
}

#[test]
fn send_does_not_fill_a_syn() {
    let mut s = UcpStream::new(0);
    s.connecting(5, 0);
    s.send(b"abc", 0);
    assert_eq!(s.send_buffer.len(), 2);
    assert_eq!(s.send_buffer[0].cmd, CMD_SYN);
    assert_eq!(s.send_buffer[0].remaining_load(), ucp::packet::UCP_MAX_PAYLOAD);
    assert_eq!((s.send_buffer[1].cmd, s.send_buffer[1].seq), (CMD_DATA, 2));
}

#[test]
fn send_buffer_overflow_at_window() {
    let mut s = UcpStream::new(0);
    s.remote_window = 2;
    s.send(&vec![0u8; 1371], 0);
    assert!(!s.is_send_buffer_overflow());
    s.send(&vec![0u8; 1371], 0);
    assert!(s.is_send_buffer_overflow());
}

#[test]
fn window_limits_packets_in_flight() {
    let mut s = UcpStream::new(0);
    s.remote_window = 2;
    s.send(&vec![0u8; 1371 * 3], 0);
    assert_eq!(s.send_buffer.len(), 3);
    assert!(s.update(0));
    assert_eq!(s.send_queue.len(), 2);
    assert_eq!(s.send_buffer.len(), 1);
    assert_eq!(s.take_outbox().len(), 2);
}

#[test]
fn large_write_arrives_intact() {
    let (mut client, mut server) = established(0);
    let msg: Vec<u8> = (0..5000u32).map(|i| (i * 7 % 256) as u8).collect();
    client.send(&msg, 100);
    assert!(client.update(100));
    let sent = pump(&mut client, &mut server, 110);
    assert_eq!(sent.iter().filter(|p| p.cmd == CMD_DATA).count(), 4);
    assert_eq!(read_all(&mut server), msg);
}

#[test]
fn every_second_data_lost() {
    let (mut client, mut server) = established(0);
    let msg: Vec<u8> = (0..6 * 1371u32).map(|i| (i % 253) as u8).collect();
    client.send(&msg, 0);
    let mut received = Vec::new();
    let mut data_seen = 0u32;
    let mut now = 0i64;
    while now < 5000 && received.len() < msg.len() {
        now += 10;
        assert!(client.update(now));
        for d in client.take_outbox() {
            let p = parse_datagram(&d).unwrap();
            if p.cmd == CMD_DATA {
                data_seen += 1;
                if data_seen % 2 == 0 {
                    continue;
                }
            }
            server.process_packet(p, now + 10);
        }
        assert!(server.update(now + 10));
        for d in server.take_outbox() {
            client.process_packet(parse_datagram(&d).unwrap(), now + 20);
        }
        received.extend(read_all(&mut server));
    }
    assert_eq!(received, msg);
    assert!(client.rto < 10 * 10);
}

#[test]
fn ack_list_splits_over_packets() {
    let mut s = UcpStream::new(0);
    for i in 0..200u32 {
        s.ack_list.push((i, i));
    }
    assert!(s.update(0));
    let acks: Vec<UcpPacket> = parsed(&s.take_outbox()).into_iter().filter(|p| p.cmd == CMD_ACK).collect();
    assert_eq!(acks.len(), 2);
    assert_eq!(acks[0].payload_remaining(), 1368);
    assert_eq!(acks[1].payload_remaining(), 1600 - 1368);
    assert!(s.ack_list.is_empty());
}

#[test]
fn accepting_waits_for_matching_ack() {
    let mut client = UcpStream::new(0);
    client.connecting(9, 0);
    assert!(client.update(0));
    let mut server = UcpStream::new(0);
    pump(&mut client, &mut server, 0);
    assert!(server.update(0));
    server.take_outbox();
    let mut wrong = UcpPacket::new();
    wrong.cmd = CMD_ACK;
    wrong.session_id = 9;
    wrong.window = 512;
    wrong.payload_write_u32(5);
    wrong.payload_write_u32(0);
    wrong.pack();
    server.process_packet(parse_datagram(wrong.packed_buffer()).unwrap(), 1);
    assert_eq!(server.state, UcpState::ACCEPTING);
    let mut right = UcpPacket::new();
    right.cmd = CMD_ACK;
    right.session_id = 9;
    right.window = 512;
    right.payload_write_u32(1);
    right.payload_write_u32(0);
    right.pack();
    server.process_packet(parse_datagram(right.packed_buffer()).unwrap(), 2);
    assert_eq!(server.state, UcpState::ESTABLISHED);
    assert!(server.send_queue.is_empty());
}

#[test]
fn new_stream_only_answers_syn() {
    let mut s = UcpStream::new(0);
    s.process_packet(data(4, 1, b"x"), 0);
    assert_eq!(s.state, UcpState::NONE);
    assert!(s.recv_queue.is_empty());
    assert!(s.ack_list.is_empty());
}

#[test]
fn una_drops_acknowledged_prefix() {
    let (mut client, _server) = established(0);
    for t in [10i64, 11, 12] {
        client.send(b"q", t);
        assert!(client.update(t));
    }
    client.process_una(4);
    let seqs: Vec<u32> = client.send_queue.iter().map(|p| p.seq).collect();
    assert_eq!(seqs, vec![4]);
}

#[test]
fn server_finds_streams_by_address() {
    let mut server = UcpServer::new(0);
    let other = PeerAddr { ip: 0x0a00_0001, port: 9 };
    for (addr, session) in [(PEER, 1u32), (other, 2u32)] {
        let mut syn = UcpPacket::new();
        syn.cmd = CMD_SYN;
        syn.seq = 1;
        syn.session_id = session;
        syn.pack();
        assert_eq!(server.process_packet(syn.packed_buffer(), addr, 0), Incoming::Accepted);
    }
    assert_eq!(server.find(other), Some(1));
    assert_eq!(server.find(PEER), Some(0));
    assert_eq!(server.find(PeerAddr { ip: 1, port: 1 }), None);
    assert_eq!(server.streams[1].1.session_id, 2);
}

#[test]
fn handshake_needs_matching_timestamp() {
    let mut client = UcpStream::new(0);
    client.connecting(9, 0);
    assert!(client.update(0));
    let mut server = UcpStream::new(0);
    pump(&mut client, &mut server, 0);
    assert!(server.update(0));
    server.take_outbox();
    let mut stale = UcpPacket::new();
    stale.cmd = CMD_ACK;
    stale.session_id = 9;
    stale.window = 512;
    stale.payload_write_u32(1);
    stale.payload_write_u32(77);
    stale.pack();
    server.process_packet(parse_datagram(stale.packed_buffer()).unwrap(), 1);
    assert_eq!(server.state, UcpState::ACCEPTING);
}

#[test]
fn in_order_data_moves_una() {
    let (_client, mut server) = established(0);
    server.process_packet(data(77, 2, b"hello"), 10);
    assert_eq!(server.una, 3);
    assert_eq!(server.ack_list, vec![(2, 0)]);
    let mut buf = [0u8; 16];
    assert_eq!(server.recv(&mut buf), 5);
    assert_eq!(&buf[..5], b"hello");
    assert!(server.recv_queue.is_empty());
    assert_eq!(server.una, 3);
}

#[test]
fn hello_becomes_one_data_packet() {
    let (mut client, _server) = established(0);
    client.take_outbox();
    let seq = client.seq;
    client.send(b"hello", 40);
    assert_eq!(client.send_buffer.len(), 1);
    let p = &client.send_buffer[0];
    assert_eq!((p.cmd, p.seq, p.session_id, p.timestamp, p.xmit), (CMD_DATA, seq + 1, 77, 40, 0));
    assert_eq!(p.remaining_load(), ucp::packet::UCP_MAX_PAYLOAD - 5);
    assert!(client.take_outbox().is_empty());
}

#[test]
fn one_pending_pair_is_one_ack() {
    let mut s = UcpStream::new(0);
    s.session_id = 4;
    s.ack_list.push((2, 9));
    s.send_ack_list(3);
    let mut out = parsed(&s.take_outbox());
    assert_eq!(out.len(), 1);
    assert_eq!((out[0].cmd, out[0].session_id, out[0].payload_remaining()), (CMD_ACK, 4, 8));
    assert_eq!(out[0].payload_read_u32(), 2);
    assert_eq!(out[0].payload_read_u32(), 9);
    assert!(s.ack_list.is_empty());
}

#[test]
fn skipped_packet_resent_as_packed() {
    let (mut client, _server) = established(0);
    client.send(b"zz", 50);
    assert!(client.update(50));
    client.take_outbox();
    client.send_queue[0].skip_times = 2;
    client.timeout_resend(51);
    let out = client.take_outbox();
    assert_eq!(out.len(), 1);
    assert_eq!(out[0], client.send_queue[0].packed_buffer().to_vec());
    assert_eq!(client.send_queue[0].xmit, 1);
    assert_eq!(client.send_queue[0].skip_times, 0);
}

#[test]
fn server_closes_one_stream() {
    let mut server = UcpServer::new(0);
    let other = PeerAddr { ip: 0x0a00_0002, port: 7 };
    for addr in [PEER, other] {
        let mut syn = UcpPacket::new();
        syn.cmd = CMD_SYN;
        syn.seq = 1;
        syn.session_id = 5;
        syn.pack();
        server.process_packet(syn.packed_buffer(), addr, 0);
    }
    assert!(server.close(PEER));
    assert!(!server.close(PEER));
    assert_eq!(server.find(PEER), None);
    assert_eq!(server.find(other), Some(0));
}
