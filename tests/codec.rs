use ucp::packet::{
    UcpHeader, UcpPacket, CMD_ACK, CMD_DATA, CMD_HEARTBEAT, CMD_SYN, UCP_MAX_PAYLOAD,
    UCP_PACKET_META_SIZE,
};
use ucp::endpoint::parse_datagram;
use ucp::seqnum::seq_distance;
use ucp::clock::to_millis;

fn data_packet(payload: &[u8]) -> UcpPacket {
    let mut p = UcpPacket::new();
    p.session_id = 0x1234_5678;
    p.timestamp = 42;
    p.window = 512;
    p.xmit = 1;
    p.una = 7;
    p.seq = 9;
    p.cmd = CMD_DATA;
    assert!(p.payload_write_slice(payload));
    p.pack();
    p
}

#[test]
fn new_packet_is_empty() {
    let p = UcpPacket::new();
    assert_eq!(p.remaining_load(), UCP_MAX_PAYLOAD);
    assert_eq!(p.payload_offset(), UCP_PACKET_META_SIZE);
    assert_eq!(p.payload_remaining(), 0);
    assert!(!p.is_syn());
}

#[test]
fn pack_then_parse_round_trip() {
    let p = data_packet(b"hello");
    let bytes = p.packed_buffer().to_vec();
    assert_eq!(bytes.len(), UCP_PACKET_META_SIZE + 5);
    let mut q = UcpPacket::from_datagram(&bytes);
    assert!(q.parse());
    assert_eq!(q.header(), p.header());
    assert_eq!(
        q.header(),
        UcpHeader { session_id: 0x1234_5678, timestamp: 42, window: 512, xmit: 1, una: 7, seq: 9, cmd: CMD_DATA }
    );
    let mut out = [0u8; 16];
    let n = q.payload_read_slice(&mut out);
    assert_eq!(&out[..n], b"hello");
    assert_eq!(q.payload_remaining(), 0);
}

#[test]
fn round_trip_with_full_payload() {
    let payload: Vec<u8> = (0..UCP_MAX_PAYLOAD).map(|i| (i % 251) as u8).collect();
    let p = data_packet(&payload);
    let mut q = UcpPacket::from_datagram(p.packed_buffer());
    assert!(q.parse());
    let mut out = vec![0u8; 2000];
    let n = q.payload_read_slice(&mut out);
    assert_eq!(n, UCP_MAX_PAYLOAD);
    assert_eq!(&out[..n], &payload[..]);
}

#[test]
fn header_is_big_endian_after_crc() {
    let p = data_packet(b"");
    let b = p.packed_buffer();
    assert_eq!(&b[4..8], &[0x12, 0x34, 0x56, 0x78]);
    assert_eq!(&b[8..12], &[0, 0, 0, 42]);
    assert_eq!(&b[12..16], &[0, 0, 2, 0]);
    assert_eq!(&b[24..28], &[0, 0, 0, 9]);
    assert_eq!(b[28], CMD_DATA);
}

#[test]
fn crc_covers_bytes_after_it() {
    let p = data_packet(b"abc");
    let b = p.packed_buffer();
    let expected = crc::crc32::checksum_ieee(&b[4..]);
    assert_eq!(u32::from_be_bytes([b[0], b[1], b[2], b[3]]), expected);
    assert_ne!(expected, 0);
}

#[test]
fn crc_of_known_input() {
    let mut p = UcpPacket::new();
    p.cmd = CMD_HEARTBEAT;
    p.pack();
    let b = p.packed_buffer();
    let mut body = vec![0u8; 24];
    body.push(CMD_HEARTBEAT);
    assert_eq!(&b[4..], &body[..]);
    assert_eq!(u32::from_be_bytes([b[0], b[1], b[2], b[3]]), crc::crc32::checksum_ieee(&body));
    assert_ne!(&b[0..4], &[0, 0, 0, 0]);
}

#[test]
fn parse_rejects_short_datagram() {
    let mut q = UcpPacket::from_datagram(&[0u8; 28]);
    assert!(!q.parse());
    assert!(!q.is_legal());
    assert!(parse_datagram(&[0u8; 10]).is_none());
}

#[test]
fn parse_rejects_bad_crc() {
    let p = data_packet(b"payload");
    let mut bytes = p.packed_buffer().to_vec();
    bytes[30] ^= 0xff;
    let mut q = UcpPacket::from_datagram(&bytes);
    assert!(!q.is_crc32_correct());
    assert!(!q.parse());
    assert!(parse_datagram(&bytes).is_none());
}

#[test]
fn parse_rejects_unknown_command() {
    let mut p = UcpPacket::new();
    p.cmd = 127;
    p.pack();
    let mut q = UcpPacket::from_datagram(p.packed_buffer());
    assert!(q.is_legal());
    assert!(!q.parse());
    let mut p = UcpPacket::new();
    p.cmd = 134;
    p.pack();
    assert!(parse_datagram(p.packed_buffer()).is_none());
}

#[test]
fn parse_rejects_oversized_datagram() {
    assert!(parse_datagram(&vec![0u8; 1401]).is_none());
}

#[test]
fn parse_accepts_syn() {
    let mut p = UcpPacket::new();
    p.cmd = CMD_SYN;
    p.seq = 1;
    p.pack();
    let q = parse_datagram(p.packed_buffer()).unwrap();
    assert!(q.is_syn());
    assert_eq!(q.seq, 1);
}

#[test]
fn payload_words_round_trip() {
    let mut p = UcpPacket::new();
    p.cmd = CMD_ACK;
    assert!(p.payload_write_u32(0xdead_beef));
    assert!(p.payload_write_u32(5));
    assert_eq!(p.remaining_load(), UCP_MAX_PAYLOAD - 8);
    p.pack();
    let mut q = parse_datagram(p.packed_buffer()).unwrap();
    assert_eq!(q.payload_remaining(), 8);
    assert_eq!(q.payload_read_u32(), 0xdead_beef);
    assert_eq!(q.payload_read_u32(), 5);
    assert_eq!(q.payload_remaining(), 0);
}

#[test]
fn payload_write_refuses_overflow() {
    let mut p = UcpPacket::new();
    assert!(p.payload_write_slice(&vec![1u8; UCP_MAX_PAYLOAD - 2]));
    assert!(!p.payload_write_u32(1));
    assert!(!p.payload_write_slice(&[1, 2, 3]));
    assert!(p.payload_write_slice(&[1, 2]));
    assert_eq!(p.remaining_load(), 0);
}

#[test]
fn payload_read_slice_is_partial() {
    let p = data_packet(b"abcdef");
    let mut q = parse_datagram(p.packed_buffer()).unwrap();
    let mut out = [0u8; 4];
    assert_eq!(q.payload_read_slice(&mut out), 4);
    assert_eq!(&out, b"abcd");
    assert_eq!(q.payload_read_slice(&mut out), 2);
    assert_eq!(&out[..2], b"ef");
    assert_eq!(q.payload_read_slice(&mut out), 0);
}

#[test]
fn byte_helpers_move_the_offset() {
    let mut p = UcpPacket::new();
    let mut off: usize = 100;
    p.write_u8(&mut off, 7);
    assert_eq!(off, 101);
    p.write_u32(&mut off, 0x0102_0304);
    assert_eq!(off, 105);
    let mut off: usize = 100;
    assert_eq!(p.parse_u8(&mut off), 7);
    assert_eq!(p.parse_u32(&mut off), 0x0102_0304);
    assert_eq!(off, 105);
}

#[test]
fn sequence_distance_across_wrap() {
    assert_eq!(seq_distance(1, 0xffff_ffff), 2);
    assert_eq!(seq_distance(0xffff_ffff, 1), -2);
    assert_eq!(seq_distance(5, 5), 0);
    assert_eq!(seq_distance(0x8000_0000, 0), -0x8000_0000);
    assert_eq!(seq_distance(0x7fff_ffff, 0), 0x7fff_ffff);
}

#[test]
fn millis_from_seconds_and_nanos() {
    assert_eq!(to_millis(2, 345_678_901), 2345);
    assert_eq!(to_millis(-2, 800_000_000), -1200);
    assert_eq!(to_millis(i64::MAX, 0), i64::MAX);
}

#[test]
fn clock_reads_the_current_time() {
    let t = ucp::clock::now_millis();
    assert!(t > 1_600_000_000_000);
    assert!(ucp::clock::now_millis() >= t);
}
