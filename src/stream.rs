//! The per-peer reliable stream: handshake, send and receive queues,
//! acknowledgements, retransmission and keepalive. Time is passed in as
//! milliseconds; datagrams to transmit are collected in `outbox`.

use vstd::prelude::*;
use std::collections::VecDeque;
use crate::packet::{
    UcpPacket, UcpHeader, encode, be32, read_be32, UCP_PACKET_META_SIZE, UCP_MAX_PAYLOAD, CMD_SYN,
    CMD_SYN_ACK, CMD_ACK, CMD_DATA, CMD_HEARTBEAT, CMD_HEARTBEAT_ACK,
};
use crate::seqnum::{seq_diff, seq_distance, seq_next, wrap32, lemma_wrap_again_succ};
use crate::model::{
    recv_sorted, is_duplicate, una_forward, advanced_una, data_step, bumped, bump_all, lemma_data_bytes_push,
    is_fresh, state_advances, echoed_seq, echoed_timestamp, in_flight, ack_bytes, payload_of,
    payloads, noseq_header, lemma_payloads_push, needs_resend, refreshed, ack_one, ack_all, rto_all,
    lemma_ack_one_found, lemma_ack_one_missing, una_popped, established_data_step, recv_step,
    lemma_seq_diff_flip, is_parsed, all_wf, deliverable, data_bytes, elapsed_ms, rtt_of, next_rto,
    lemma_insert_keeps_order, resent, lemma_resent_prefix, packed,
    heartbeat_step, ack_flush_step, resend_step, promote_step, tick_step,
    packet_step, update_step, in_flight_pair, handshake_step, drained_from, new_data_packet,
};

verus! {

pub const DEFAULT_WINDOW: u32 = 512;
pub const DEFAULT_RTO: u32 = 100;
pub const HEARTBEAT_INTERVAL_MILLIS: i64 = 2500;
pub const UCP_STREAM_BROKEN_MILLIS: i64 = 20000;
pub const SKIP_RESEND_TIMES: u32 = 2;
/// How many `(seq, timestamp)` pairs fill an ACK packet.
pub const ACK_PAIRS_PER_PACKET: usize = 171;

#[derive(Clone, Copy, Debug, PartialEq, Eq, Structural)]
pub enum UcpState {
    NONE,
    ACCEPTING,
    CONNECTING,
    ESTABLISHED,
}

/// Relies on rand::random: a uniformly drawn `u32`; nothing is known of its value.
#[verifier::external_body]
fn random_u32() -> (r: u32) {
    rand::random::<u32>()
}

/// How many draws `connect` makes before it settles for session 1.
pub const SESSION_DRAWS: u32 = 16;

/// One reliable stream to one peer.
pub struct UcpStream {
    pub initial_time: i64,
    pub alive_time: i64,
    pub heartbeat: i64,
    pub state: UcpState,
    /// Packets sent and not yet acknowledged, oldest first.
    pub send_queue: VecDeque<UcpPacket>,
    /// Received DATA packets in sequence order.
    pub recv_queue: VecDeque<UcpPacket>,
    /// Packets waiting for room in the peer's window.
    pub send_buffer: VecDeque<UcpPacket>,
    /// Pairs of sequence number and timestamp to acknowledge on the next tick.
    pub ack_list: Vec<(u32, u32)>,
    pub session_id: u32,
    pub local_window: u32,
    pub remote_window: u32,
    pub seq: u32,
    pub una: u32,
    pub rto: u32,
    /// Datagrams ready to be sent to the peer.
    pub outbox: Vec<Vec<u8>>,
}

impl UcpStream {
    pub open spec fn wf(&self) -> bool {
        &&& all_wf(self.send_queue@)
        &&& all_wf(self.send_buffer@)
        &&& forall|i: int| 0 <= i < self.recv_queue@.len() ==> is_parsed(#[trigger] self.recv_queue@[i])
        &&& recv_sorted(self.recv_queue@)
    }

    /// The datagrams in the outbox.
    pub open spec fn datagrams(&self) -> Seq<Seq<u8>> {
        self.outbox@.map_values(|d: Vec<u8>| d@)
    }

    pub fn new(now: i64) -> (r: UcpStream)
        ensures
            r.wf(),
            r.state == UcpState::NONE,
            r.initial_time == now,
            r.alive_time == now,
            r.heartbeat == now,
            r.send_queue@.len() == 0,
            r.recv_queue@.len() == 0,
            r.send_buffer@.len() == 0,
            r.ack_list@.len() == 0,
            r.outbox@.len() == 0,
            r.session_id == 0,
            r.local_window == DEFAULT_WINDOW,
            r.remote_window == DEFAULT_WINDOW,
            r.seq == 0,
            r.una == 0,
            r.rto == DEFAULT_RTO,
    {
        UcpStream {
            initial_time: now,
            alive_time: now,
            heartbeat: now,
            state: UcpState::NONE,
            send_queue: VecDeque::new(),
            recv_queue: VecDeque::new(),
            send_buffer: VecDeque::new(),
            ack_list: Vec::new(),
            session_id: 0,
            local_window: DEFAULT_WINDOW,
            remote_window: DEFAULT_WINDOW,
            seq: 0,
            una: 0,
            rto: DEFAULT_RTO,
            outbox: Vec::new(),
        }
    }

    pub fn is_send_buffer_overflow(&self) -> (r: bool)
        ensures
            r == (self.send_buffer@.len() >= self.remote_window),
    {
        self.send_buffer.len() >= self.remote_window as usize
    }

    /// Milliseconds since the stream was created, as carried in packet headers.
    pub fn timestamp(&self, now: i64) -> (r: u32)
        ensures
            r == elapsed_ms(now, self.initial_time),
    {
        let d: i128 = now as i128 - self.initial_time as i128;
        if d <= 0 {
            0
        } else {
            ((d as u128) % 0x1_0000_0000u128) as u32
        }
    }

    pub fn next_seq(&mut self) -> (r: u32)
        ensures
            r == wrap32(old(self).seq + 1),
            *final(self) == (UcpStream { seq: r, ..*old(self) }),
    {
        self.seq = self.seq.wrapping_add(1);
        self.seq
    }

    /// A fresh packet carrying the stream's current header values and the next
    /// sequence number.
    pub fn new_packet(&mut self, cmd: u8, now: i64) -> (r: UcpPacket)
        ensures
            r.wf(),
            r.size == 0,
            r.payload == 0,
            r.read_pos == 0,
            r.skip_times == 0,
            r.header_view() == (UcpHeader {
                session_id: old(self).session_id,
                timestamp: elapsed_ms(now, old(self).initial_time),
                window: old(self).local_window,
                xmit: 0,
                una: old(self).una,
                seq: wrap32(old(self).seq + 1),
                cmd,
            }),
            *final(self) == (UcpStream { seq: wrap32(old(self).seq + 1), ..*old(self) }),
    {
        let mut packet = UcpPacket::new();
        packet.session_id = self.session_id;
        packet.timestamp = self.timestamp(now);
        packet.window = self.local_window;
        packet.seq = self.next_seq();
        packet.una = self.una;
        packet.cmd = cmd;
        packet
    }

    /// A fresh packet carrying the stream's current header values and sequence
    /// number zero.
    pub fn new_noseq_packet(&self, cmd: u8, now: i64) -> (r: UcpPacket)
        ensures
            r.wf(),
            r.size == 0,
            r.payload == 0,
            r.read_pos == 0,
            r.skip_times == 0,
            r.header_view() == (UcpHeader {
                session_id: self.session_id,
                timestamp: elapsed_ms(now, self.initial_time),
                window: self.local_window,
                xmit: 0,
                una: self.una,
                seq: 0,
                cmd,
            }),
    {
        let mut packet = UcpPacket::new();
        packet.session_id = self.session_id;
        packet.timestamp = self.timestamp(now);
        packet.window = self.local_window;
        packet.una = self.una;
        packet.cmd = cmd;
        packet
    }

    /// Queues a packet behind those waiting for the window.
    pub fn send_packet(&mut self, packet: UcpPacket)
        ensures
            final(self).send_buffer@ == old(self).send_buffer@.push(packet),
            *final(self) == (UcpStream { send_buffer: final(self).send_buffer, ..*old(self) }),
    {
        self.send_buffer.push_back(packet);
    }

    /// Packs a packet and puts its datagram in the outbox.
    pub fn send_packet_directly(&mut self, packet: &mut UcpPacket)
        requires
            old(packet).wf(),
        ensures
            final(packet).wf(),
            final(packet).bytes() == encode(old(packet).header_view(), old(packet).payload_bytes()),
            final(packet).header_view() == old(packet).header_view(),
            final(packet).payload_bytes() == old(packet).payload_bytes(),
            final(packet).size == UCP_PACKET_META_SIZE + old(packet).payload,
            final(packet).payload == old(packet).payload,
            final(packet).read_pos == old(packet).read_pos,
            final(packet).skip_times == old(packet).skip_times,
            final(self).datagrams() == old(self).datagrams().push(final(packet).bytes()),
            *final(self) == (UcpStream { outbox: final(self).outbox, ..*old(self) }),
    {
        packet.pack();
        let data = packet.packed_buffer();
        let mut datagram: Vec<u8> = Vec::new();
        let mut i: usize = 0;
        while i < data.len()
            invariant
                i <= data@.len(),
                datagram@ == data@.subrange(0, i as int),
            decreases data@.len() - i,
        {
            datagram.push(data[i]);
            i = i + 1;
            assert(datagram@ =~= data@.subrange(0, i as int));
        }
        assert(datagram@ =~= data@);
        self.outbox.push(datagram);
        assert(self.datagrams() =~= old(self).datagrams().push(packet.bytes()));
    }

    /// Takes the datagrams waiting to be sent, oldest first.
    pub fn take_outbox(&mut self) -> (r: Vec<Vec<u8>>)
        ensures
            r@.map_values(|d: Vec<u8>| d@) == old(self).datagrams(),
            final(self).outbox@.len() == 0,
            *final(self) == (UcpStream { outbox: final(self).outbox, ..*old(self) }),
    {
        let mut out: Vec<Vec<u8>> = Vec::new();
        std::mem::swap(&mut out, &mut self.outbox);
        out
    }

    /// Hands out received bytes in sequence order, up to `buf.len()`, stopping at
    /// the first packet that is not yet contiguous. Returns how many were written.
    pub fn recv(&mut self, buf: &mut [u8]) -> (r: usize)
        requires
            old(self).wf(),
        ensures
            final(self).wf(),
            r == if deliverable(old(self).recv_queue@, old(self).una).len() < old(buf)@.len() {
                deliverable(old(self).recv_queue@, old(self).una).len() as int
            } else {
                old(buf)@.len() as int
            },
            final(buf)@ == deliverable(old(self).recv_queue@, old(self).una).subrange(0, r as int)
                + old(buf)@.subrange(r as int, old(buf)@.len() as int),
            deliverable(final(self).recv_queue@, final(self).una) == deliverable(
                old(self).recv_queue@,
                old(self).una,
            ).subrange(r as int, deliverable(old(self).recv_queue@, old(self).una).len() as int),
            *final(self) == (UcpStream { recv_queue: final(self).recv_queue, ..*old(self) }),
            recv_step(*old(self), *final(self), final(buf)@.subrange(0, r as int), old(buf)@.len()),
            drained_from(old(self).recv_queue@, final(self).recv_queue@),
            r < old(buf)@.len() ==> final(self).recv_queue@.len() == 0 || seq_diff(
                final(self).recv_queue@[0].seq,
                final(self).una,
            ) >= 0,
    {
        let ghost total = deliverable(self.recv_queue@, self.una);
        let mut size: usize = 0;
        while size < buf.len() && self.recv_queue.len() > 0
            invariant
                self.wf(),
                *self == (UcpStream { recv_queue: self.recv_queue, ..*old(self) }),
                size <= buf@.len(),
                buf@.len() == old(buf)@.len(),
                total == buf@.subrange(0, size as int) + deliverable(self.recv_queue@, self.una),
                buf@.subrange(size as int, buf@.len() as int) == old(buf)@.subrange(
                    size as int,
                    old(buf)@.len() as int,
                ),
                drained_from(old(self).recv_queue@, self.recv_queue@),
            ensures
                self.wf(),
                *self == (UcpStream { recv_queue: self.recv_queue, ..*old(self) }),
                size <= buf@.len(),
                buf@.len() == old(buf)@.len(),
                total == buf@.subrange(0, size as int) + deliverable(self.recv_queue@, self.una),
                buf@.subrange(size as int, buf@.len() as int) == old(buf)@.subrange(
                    size as int,
                    old(buf)@.len() as int,
                ),
                size == buf@.len() || deliverable(self.recv_queue@, self.una).len() == 0,
                drained_from(old(self).recv_queue@, self.recv_queue@),
                size < buf@.len() ==> self.recv_queue@.len() == 0 || seq_diff(self.recv_queue@[0].seq, self.una) >= 0,
            decreases buf@.len() - size + self.recv_queue@.len(),
        {
            if seq_distance(self.recv_queue[0].seq, self.una) >= 0 {
                break;
            }
            let ghost q = self.recv_queue@;
            let ghost b0 = buf@;
            let mut packet = self.recv_queue.pop_front().unwrap();
            assert(self.recv_queue@ == q.drop_first());
            let n = packet.payload_read_into(buf, size);
            let ghost u = q[0].unread();
            assert(total == b0.subrange(0, size as int) + (u + deliverable(q.drop_first(), self.una)));
            assert(buf@.subrange(0, size + n) =~= b0.subrange(0, size as int) + u.subrange(0, n as int));
            assert(buf@.subrange(size + n, buf@.len() as int) =~= b0.subrange(size + n, b0.len() as int));
            assert forall|k: int| size + n <= k < b0.len() implies b0[k] == old(buf)@[k] by {
                assert(b0[k] == b0.subrange(size as int, b0.len() as int)[k - size]);
                assert(old(buf)@[k] == old(buf)@.subrange(size as int, old(buf)@.len() as int)[k - size]);
            }
            assert(b0.subrange(size + n, b0.len() as int) =~= old(buf)@.subrange(size + n, old(buf)@.len() as int));
            assert(packet.unread() =~= u.subrange(n as int, u.len() as int));
            if packet.payload_remaining() > 0 {
                self.recv_queue.insert(0, packet);
                let ghost q2 = self.recv_queue@;
                assert(drained_from(old(self).recv_queue@, q2)) by {
                    let k = old(self).recv_queue@.len() - q.len();
                    assert forall|j: int| 1 <= j < q2.len() implies #[trigger] q2[j] == old(self).recv_queue@[k + j] by {
                        assert(q2[j] == q[j]);
                    }
                }
                assert(q2.drop_first() =~= q.drop_first());
                assert(q2 =~= q.update(0, packet));
                assert(deliverable(q2, self.una) == packet.unread() + deliverable(q.drop_first(), self.una));
                assert(total =~= buf@.subrange(0, size + n) + deliverable(q2, self.una));
            } else {
                assert(drained_from(old(self).recv_queue@, self.recv_queue@)) by {
                    let q1 = self.recv_queue@;
                    let k = old(self).recv_queue@.len() - q.len();
                    assert forall|j: int| 0 <= j < q1.len() implies #[trigger] q1[j] == old(self).recv_queue@[k + 1 + j] by {
                        assert(q1[j] == q[j + 1]);
                        if j + 1 >= 1 {
                            assert(q[j + 1] == old(self).recv_queue@[k + j + 1]);
                        }
                    }
                }
                assert(u.subrange(0, n as int) =~= u);
                assert(total =~= buf@.subrange(0, size + n) + deliverable(self.recv_queue@, self.una));
            }
            size = size + n;
        }
        assert(buf@ =~= total.subrange(0, size as int) + old(buf)@.subrange(size as int, old(buf)@.len() as int));
        assert(deliverable(self.recv_queue@, self.una) =~= total.subrange(size as int, total.len() as int));
        assert(buf@.subrange(0, size as int) =~= total.subrange(0, size as int));
        size
    }

    /// Drops from the front of the send queue the packets that precede `una`.
    pub fn process_una(&mut self, una: u32)
        requires
            old(self).wf(),
        ensures
            final(self).wf(),
            una_popped(old(self).send_queue@, final(self).send_queue@, una),
            *final(self) == (UcpStream { send_queue: final(self).send_queue, ..*old(self) }),
    {
        let ghost q0 = self.send_queue@;
        while self.send_queue.len() > 0
            invariant
                *self == (UcpStream { send_queue: self.send_queue, ..*old(self) }),
                q0 == old(self).send_queue@,
                self.send_queue@.len() <= q0.len(),
                self.send_queue@ == q0.subrange(q0.len() - self.send_queue@.len(), q0.len() as int),
                forall|i: int|
                    0 <= i < q0.len() - self.send_queue@.len() ==> seq_diff(#[trigger] q0[i].seq, una) < 0,
            ensures
                *self == (UcpStream { send_queue: self.send_queue, ..*old(self) }),
                self.send_queue@.len() <= q0.len(),
                self.send_queue@ == q0.subrange(q0.len() - self.send_queue@.len(), q0.len() as int),
                forall|i: int|
                    0 <= i < q0.len() - self.send_queue@.len() ==> seq_diff(#[trigger] q0[i].seq, una) < 0,
                self.send_queue@.len() > 0 ==> seq_diff(self.send_queue@[0].seq, una) >= 0,
            decreases self.send_queue@.len(),
        {
            if seq_distance(self.send_queue[0].seq, una) < 0 {
                let ghost before = self.send_queue@;
                self.send_queue.pop_front();
                assert(self.send_queue@ =~= q0.subrange(q0.len() - self.send_queue@.len(), q0.len() as int));
                assert(before[0] == q0[q0.len() - before.len()]);
            } else {
                break;
            }
        }
        assert forall|i: int| 0 <= i < self.send_queue@.len() implies (#[trigger] self.send_queue@[i]).wf() by {
            assert(self.send_queue@[i] == q0[q0.len() - self.send_queue@.len() + i]);
        }
    }

    /// Applies one acknowledged pair: updates the retransmit timeout from the
    /// echoed timestamp, removes the first in-flight packet with that sequence
    /// number, and counts a skip on each packet before it that was sent no later.
    /// Returns whether such a packet was in flight.
    pub fn process_an_ack(&mut self, seq: u32, timestamp: u32, now: i64) -> (r: bool)
        requires
            old(self).wf(),
        ensures
            final(self).wf(),
            final(self).rto == next_rto(
                old(self).rto,
                rtt_of(elapsed_ms(now, old(self).initial_time), timestamp),
            ),
            r == exists|k: int|
                0 <= k < old(self).send_queue@.len() && (#[trigger] old(self).send_queue@[k]).seq == seq,
            r ==> exists|k: int|
                0 <= k < old(self).send_queue@.len() && (#[trigger] old(self).send_queue@[k]).seq == seq
                    && (forall|j: int| 0 <= j < k ==> (#[trigger] old(self).send_queue@[j]).seq != seq)
                    && final(self).send_queue@ == bump_all(old(self).send_queue@.subrange(0, k), timestamp)
                    + old(self).send_queue@.subrange(k + 1, old(self).send_queue@.len() as int),
            !r ==> final(self).send_queue@ == bump_all(old(self).send_queue@, timestamp),
            final(self).send_queue@ == ack_one(old(self).send_queue@, seq, timestamp),
            *final(self) == (UcpStream {
                send_queue: final(self).send_queue,
                rto: final(self).rto,
                ..*old(self)
            }),
    {
        let now_ts = self.timestamp(now);
        let d = seq_distance(now_ts, timestamp);
        let rtt: u32 = if d < 0 {
            0
        } else {
            d as u32
        };
        self.rto = ((self.rto as u64 + rtt as u64) / 2) as u32;
        let ghost q0 = self.send_queue@;
        let n = self.send_queue.len();
        let mut i: usize = 0;
        while i < n
            invariant
                all_wf(q0),
                old(self).wf(),
                self.rto == next_rto(old(self).rto, rtt_of(elapsed_ms(now, old(self).initial_time), timestamp)),
                *self == (UcpStream { send_queue: self.send_queue, rto: self.rto, ..*old(self) }),
                q0 == old(self).send_queue@,
                n == q0.len(),
                i <= n,
                self.send_queue@ == bump_all(q0.subrange(0, i as int), timestamp) + q0.subrange(i as int, n as int),
                forall|j: int| 0 <= j < i ==> (#[trigger] q0[j]).seq != seq,
            decreases n - i,
        {
            if self.send_queue[i].seq == seq {
                let ghost before = self.send_queue@;
                self.send_queue.remove(i).unwrap();
                assert(self.send_queue@ =~= bump_all(q0.subrange(0, i as int), timestamp) + q0.subrange(i + 1, n as int));
                assert(before[i as int] == q0[i as int]);
                proof {
                    lemma_ack_one_found(q0, seq, timestamp, i as int);
                    assert forall|k: int| 0 <= k < self.send_queue@.len() implies (#[trigger] self.send_queue@[k]).wf() by {
                        if k < i {
                            assert(self.send_queue@[k] == bumped(q0[k], timestamp));
                            assert(q0[k].wf());
                        } else {
                            assert(self.send_queue@[k] == q0[k + 1]);
                        }
                    }
                }
                return true;
            } else if self.send_queue[i].timestamp <= timestamp {
                let mut packet = self.send_queue.remove(i).unwrap();
                packet.skip_times = packet.skip_times.saturating_add(1);
                self.send_queue.insert(i, packet);
            }
            proof {
                assert(self.send_queue@ =~= bump_all(q0.subrange(0, i + 1), timestamp) + q0.subrange(i + 1, n as int));
            }
            i = i + 1;
        }
        proof {
            assert(q0.subrange(0, n as int) =~= q0);
            assert(self.send_queue@ =~= bump_all(q0, timestamp));
            lemma_ack_one_missing(q0, seq, timestamp);
            assert forall|k: int| 0 <= k < self.send_queue@.len() implies (#[trigger] self.send_queue@[k]).wf() by {
                assert(self.send_queue@[k] == bumped(q0[k], timestamp));
                assert(q0[k].wf());
            }
        }
        false
    }

    /// Queues application bytes: first into the room left in the last buffered
    /// DATA packet, then into new DATA packets of up to `UCP_MAX_PAYLOAD` bytes,
    /// each with the next sequence number.
    #[verifier::rlimit(50)]
    pub fn send(&mut self, buf: &[u8], now: i64)
        requires
            old(self).wf(),
        ensures
            final(self).wf(),
            data_bytes(final(self).send_buffer@) == data_bytes(old(self).send_buffer@) + buf@,
            old(self).send_buffer@.len() <= final(self).send_buffer@.len(),
            forall|j: int|
                0 <= j < old(self).send_buffer@.len() - 1 ==> #[trigger] final(self).send_buffer@[j]
                    == old(self).send_buffer@[j],
            forall|j: int|
                0 <= j < old(self).send_buffer@.len() ==> (#[trigger] final(self).send_buffer@[j]).header_view()
                    == old(self).send_buffer@[j].header_view(),
            forall|j: int|
                old(self).send_buffer@.len() <= j < final(self).send_buffer@.len() ==> new_data_packet(
                    #[trigger] final(self).send_buffer@[j],
                    *old(self),
                    now,
                    j - old(self).send_buffer@.len(),
                ),
            forall|j: int|
                old(self).send_buffer@.len() <= j < final(self).send_buffer@.len() - 1
                    ==> (#[trigger] final(self).send_buffer@[j]).payload_bytes().len() == UCP_MAX_PAYLOAD,
            old(self).send_buffer@.len() > 0 && old(self).send_buffer@.last().cmd != CMD_DATA
                ==> final(self).send_buffer@[old(self).send_buffer@.len() - 1] == old(self).send_buffer@.last(),
            old(self).send_buffer@.len() > 0 && old(self).send_buffer@.last().cmd == CMD_DATA ==> {
                let last = old(self).send_buffer@.last();
                let fill = if last.remaining_load_spec() < buf@.len() {
                    last.remaining_load_spec() as int
                } else {
                    buf@.len() as int
                };
                &&& final(self).send_buffer@[old(self).send_buffer@.len() - 1].payload_bytes()
                    == last.payload_bytes() + buf@.subrange(0, fill)
                &&& final(self).send_buffer@.len() > old(self).send_buffer@.len() ==> fill < buf@.len()
            },
            final(self).seq == wrap32(
                old(self).seq + (final(self).send_buffer@.len() - old(self).send_buffer@.len()),
            ),
            *final(self) == (UcpStream {
                send_buffer: final(self).send_buffer,
                seq: final(self).seq,
                ..*old(self)
            }),
    {
        let mut pos: usize = 0;
        let n = self.send_buffer.len();
        if n > 0 && self.send_buffer[n - 1].cmd == CMD_DATA {
            let ghost q0 = self.send_buffer@;
            let mut last = self.send_buffer.pop_back().unwrap();
            assert(self.send_buffer@ =~= q0.drop_last());
            let room = last.remaining_load();
            let remain = if room < buf.len() {
                room
            } else {
                buf.len()
            };
            if remain > 0 {
                let part = &buf[0..remain];
                last.payload_write_slice(part);
            }
            assert(last.payload_bytes() =~= q0.last().payload_bytes() + buf@.subrange(0, remain as int));
            self.send_buffer.push_back(last);
            pos = remain;
            proof {
                lemma_data_bytes_push(q0.drop_last(), q0.last());
                lemma_data_bytes_push(q0.drop_last(), last);
                assert(q0.drop_last().push(q0.last()) =~= q0);
                assert(self.send_buffer@ =~= q0.drop_last().push(last));
            }
        }
        assert(data_bytes(self.send_buffer@) =~= data_bytes(old(self).send_buffer@) + buf@.subrange(0, pos as int));
        assert(wrap32(old(self).seq + 0) == old(self).seq);
        let ghost mid = self.send_buffer@;
        assert(mid.len() == old(self).send_buffer@.len());
        assert(forall|j: int| 0 <= j < mid.len() - 1 ==> mid[j] == old(self).send_buffer@[j]);
        assert(n > 0 && old(self).send_buffer@.last().cmd == CMD_DATA ==> {
            let last = old(self).send_buffer@.last();
            &&& mid[n - 1].payload_bytes() == last.payload_bytes() + buf@.subrange(0, pos as int)
            &&& pos == if last.remaining_load_spec() < buf@.len() {
                last.remaining_load_spec() as int
            } else {
                buf@.len() as int
            }
        });
        assert(n > 0 && old(self).send_buffer@.last().cmd != CMD_DATA ==> mid[n - 1] == old(self).send_buffer@.last() && pos == 0);
        assert(forall|j: int| 0 <= j < mid.len() ==> mid[j].header_view() == old(self).send_buffer@[j].header_view());
        let ghost filled = pos;
        self.make_packet_send(buf, pos, now);
        assert forall|j: int| 0 <= j < mid.len() implies #[trigger] self.send_buffer@[j] == mid[j] by {
            assert(self.send_buffer@.subrange(0, mid.len() as int)[j] == self.send_buffer@[j]);
        }
        assert(buf@.subrange(0, buf@.len() as int) =~= buf@);
        proof {
            if n > 0 && old(self).send_buffer@.last().cmd == CMD_DATA {
                assert(self.send_buffer@[n - 1] == mid[n - 1]);
            }
        }
    }

    /// Cuts `buf[from..]` into new DATA packets and queues them.
    #[verifier::rlimit(100)]
    pub fn make_packet_send(&mut self, buf: &[u8], from: usize, now: i64)
        requires
            old(self).wf(),
            from <= buf@.len(),
        ensures
            final(self).wf(),
            data_bytes(final(self).send_buffer@) == data_bytes(old(self).send_buffer@) + buf@.subrange(
                from as int,
                buf@.len() as int,
            ),
            old(self).send_buffer@.len() <= final(self).send_buffer@.len(),
            final(self).send_buffer@.len() > old(self).send_buffer@.len() ==> from < buf@.len(),
            final(self).send_buffer@.subrange(0, old(self).send_buffer@.len() as int)
                == old(self).send_buffer@,
            forall|j: int|
                old(self).send_buffer@.len() <= j < final(self).send_buffer@.len() ==> new_data_packet(
                    #[trigger] final(self).send_buffer@[j],
                    *old(self),
                    now,
                    j - old(self).send_buffer@.len(),
                ),
            forall|j: int|
                old(self).send_buffer@.len() <= j < final(self).send_buffer@.len() - 1
                    ==> (#[trigger] final(self).send_buffer@[j]).payload_bytes().len() == UCP_MAX_PAYLOAD,
            final(self).seq == wrap32(
                old(self).seq + (final(self).send_buffer@.len() - old(self).send_buffer@.len()),
            ),
            *final(self) == (UcpStream {
                send_buffer: final(self).send_buffer,
                seq: final(self).seq,
                ..*old(self)
            }),
    {
        let ghost q0 = self.send_buffer@;
        let ghost seq0 = self.seq;
        proof {
            vstd::arithmetic::div_mod::lemma_small_mod(seq0 as nat, 0x1_0000_0000);
        }
        let buf_len = buf.len();
        let mut pos: usize = from;
        while pos < buf_len
            invariant
                old(self).wf(),
                self.wf(),
                q0 == old(self).send_buffer@,
                seq0 == old(self).seq,
                buf_len == buf@.len(),
                from <= pos <= buf_len,
                q0.len() <= self.send_buffer@.len(),
                self.send_buffer@.len() > q0.len() ==> from < buf_len,
                self.send_buffer@.subrange(0, q0.len() as int) == q0,
                data_bytes(self.send_buffer@) == data_bytes(q0) + buf@.subrange(from as int, pos as int),
                forall|j: int|
                    q0.len() <= j < self.send_buffer@.len() ==> new_data_packet(
                        #[trigger] self.send_buffer@[j],
                        *old(self),
                        now,
                        j - q0.len(),
                    ),
                forall|j: int|
                    q0.len() <= j < self.send_buffer@.len() - 1
                        ==> (#[trigger] self.send_buffer@[j]).payload_bytes().len() == UCP_MAX_PAYLOAD,
                self.send_buffer@.len() > q0.len() && pos < buf_len ==> self.send_buffer@.last().payload_bytes().len()
                    == UCP_MAX_PAYLOAD,
                self.seq == wrap32(seq0 + (self.send_buffer@.len() - q0.len())),
                *self == (UcpStream { send_buffer: self.send_buffer, seq: self.seq, ..*old(self) }),
            decreases buf_len - pos,
        {
            let ghost c = self.send_buffer@.len() - q0.len();
            let ghost q1 = self.send_buffer@;
            let mut packet = self.new_packet(CMD_DATA, now);
            proof {
                lemma_wrap_again_succ(seq0 + c);
            }
            let room = packet.remaining_load();
            let size = if room < buf_len - pos {
                room
            } else {
                buf_len - pos
            };
            let end_pos = pos + size;
            let part = &buf[pos..end_pos];
            packet.payload_write_slice(part);
            assert(packet.payload_bytes() =~= part@);
            self.send_packet(packet);
            proof {
                lemma_data_bytes_push(q1, packet);
                assert(buf@.subrange(from as int, end_pos as int) =~= buf@.subrange(from as int, pos as int) + part@);
                assert(self.send_buffer@.subrange(0, q0.len() as int) =~= q0);
                assert forall|j: int| 0 <= j < self.send_buffer@.len() implies (#[trigger] self.send_buffer@[j]).wf() by {
                    if j < q1.len() {
                        assert(self.send_buffer@[j] == q1[j]);
                    }
                }
                assert forall|j: int| q0.len() <= j < self.send_buffer@.len() implies new_data_packet(
                    #[trigger] self.send_buffer@[j],
                    *old(self),
                    now,
                    j - q0.len(),
                ) by {
                    if j < q1.len() {
                        assert(self.send_buffer@[j] == q1[j]);
                    }
                }
                assert forall|j: int| q0.len() <= j < self.send_buffer@.len() - 1 implies (#[trigger] self.send_buffer@[j]).payload_bytes().len() == UCP_MAX_PAYLOAD by {
                    assert(self.send_buffer@[j] == q1[j]);
                }
            }
            pos = end_pos;
        }
    }

    /// A random non-zero session id: zero marks a stream without a session, so a
    /// zero draw is drawn again.
    pub fn random_session_id() -> (r: u32)
        ensures
            r != 0,
    {
        let mut tries: u32 = 0;
        while tries < SESSION_DRAWS
            invariant
                tries <= SESSION_DRAWS,
            decreases SESSION_DRAWS - tries,
        {
            let r = random_u32();
            if r != 0 {
                return r;
            }
            tries = tries + 1;
        }
        1
    }

    /// Starts the handshake as the initiating side, with a random non-zero
    /// session id.
    pub fn connect(&mut self, now: i64)
        requires
            old(self).wf(),
        ensures
            final(self).wf(),
            final(self).state == UcpState::CONNECTING,
            final(self).session_id != 0,
            final(self).seq == wrap32(old(self).seq + 1),
            final(self).send_buffer@.len() == old(self).send_buffer@.len() + 1,
            final(self).send_buffer@.last().cmd == CMD_SYN,
            final(self).send_buffer@.last().seq == wrap32(old(self).seq + 1),
            *final(self) == (UcpStream {
                state: final(self).state,
                session_id: final(self).session_id,
                seq: final(self).seq,
                send_buffer: final(self).send_buffer,
                ..*old(self)
            }),
    {
        let session_id = UcpStream::random_session_id();
        self.connecting(session_id, now);
    }

    /// Whether a packet in flight has this sequence number and timestamp.
    pub fn has_in_flight(&self, seq: u32, timestamp: u32) -> (r: bool)
        ensures
            r == in_flight_pair(self.send_queue@, seq, timestamp),
    {
        let n = self.send_queue.len();
        let mut i: usize = 0;
        while i < n
            invariant
                n == self.send_queue@.len(),
                i <= n,
                forall|k: int|
                    0 <= k < i ==> !((#[trigger] self.send_queue@[k]).seq == seq
                        && self.send_queue@[k].timestamp == timestamp),
            decreases n - i,
        {
            if self.send_queue[i].seq == seq && self.send_queue[i].timestamp == timestamp {
                return true;
            }
            i = i + 1;
        }
        false
    }

    /// Starts the handshake as the initiating side: records the session and
    /// queues a SYN with the next sequence number.
    pub fn connecting(&mut self, session_id: u32, now: i64)
        requires
            old(self).wf(),
        ensures
            final(self).wf(),
            final(self).state == UcpState::CONNECTING,
            final(self).session_id == session_id,
            final(self).seq == wrap32(old(self).seq + 1),
            final(self).send_buffer@.len() == old(self).send_buffer@.len() + 1,
            final(self).send_buffer@.last().header_view() == (UcpHeader {
                session_id,
                timestamp: elapsed_ms(now, old(self).initial_time),
                window: old(self).local_window,
                xmit: 0,
                una: old(self).una,
                seq: wrap32(old(self).seq + 1),
                cmd: CMD_SYN,
            }),
            final(self).send_buffer@.last().payload_bytes().len() == 0,
            *final(self) == (UcpStream {
                state: final(self).state,
                session_id,
                seq: final(self).seq,
                send_buffer: final(self).send_buffer,
                ..*old(self)
            }),
    {
        self.state = UcpState::CONNECTING;
        self.session_id = session_id;
        let syn = self.new_packet(CMD_SYN, now);
        self.send_packet(syn);
        assert(self.send_buffer@.last() == syn);
        assert forall|j: int| 0 <= j < self.send_buffer@.len() implies (#[trigger] self.send_buffer@[j]).wf() by {
            if j < old(self).send_buffer@.len() {
                assert(self.send_buffer@[j] == old(self).send_buffer@[j]);
            }
        }
    }

    /// Answers a SYN from a new peer: takes over its session, window and sequence
    /// number, and queues a SYN_ACK that echoes the SYN's sequence number and
    /// timestamp.
    pub fn accepting(&mut self, packet: &UcpPacket, now: i64)
        requires
            old(self).wf(),
        ensures
            final(self).wf(),
            final(self).state == UcpState::ACCEPTING,
            final(self).session_id == packet.session_id,
            final(self).remote_window == packet.window,
            final(self).una == wrap32(packet.seq + 1),
            final(self).seq == wrap32(old(self).seq + 1),
            final(self).send_buffer@.len() == old(self).send_buffer@.len() + 1,
            final(self).send_buffer@.last().header_view() == (UcpHeader {
                session_id: packet.session_id,
                timestamp: elapsed_ms(now, old(self).initial_time),
                window: old(self).local_window,
                xmit: 0,
                una: wrap32(packet.seq + 1),
                seq: wrap32(old(self).seq + 1),
                cmd: CMD_SYN_ACK,
            }),
            final(self).send_buffer@.last().payload_bytes() == be32(packet.seq) + be32(packet.timestamp),
            *final(self) == (UcpStream {
                state: final(self).state,
                session_id: final(self).session_id,
                remote_window: final(self).remote_window,
                una: final(self).una,
                seq: final(self).seq,
                send_buffer: final(self).send_buffer,
                ..*old(self)
            }),
    {
        self.state = UcpState::ACCEPTING;
        self.session_id = packet.session_id;
        self.remote_window = packet.window;
        assert(packet.seq == wrap32(packet.seq + 0));
        self.una = seq_next(packet.seq, Ghost(packet.seq as int));
        let mut syn_ack = self.new_packet(CMD_SYN_ACK, now);
        syn_ack.payload_write_u32(packet.seq);
        syn_ack.payload_write_u32(packet.timestamp);
        assert(syn_ack.payload_bytes() =~= be32(packet.seq) + be32(packet.timestamp));
        self.send_packet(syn_ack);
        assert(self.send_buffer@.last() == syn_ack);
        assert forall|j: int| 0 <= j < self.send_buffer@.len() implies (#[trigger] self.send_buffer@[j]).wf() by {
            if j < old(self).send_buffer@.len() {
                assert(self.send_buffer@[j] == old(self).send_buffer@[j]);
            }
        }
    }

    /// Replies to a HEARTBEAT at once with a HEARTBEAT_ACK.
    pub fn process_heartbeat(&mut self, now: i64)
        requires
            old(self).wf(),
        ensures
            final(self).wf(),
            final(self).datagrams() == old(self).datagrams().push(
                encode(
                    UcpHeader {
                        session_id: old(self).session_id,
                        timestamp: elapsed_ms(now, old(self).initial_time),
                        window: old(self).local_window,
                        xmit: 0,
                        una: old(self).una,
                        seq: 0,
                        cmd: CMD_HEARTBEAT_ACK,
                    },
                    Seq::empty(),
                ),
            ),
            *final(self) == (UcpStream { outbox: final(self).outbox, ..*old(self) }),
    {
        let mut heartbeat_ack = self.new_noseq_packet(CMD_HEARTBEAT_ACK, now);
        assert(heartbeat_ack.payload_bytes() =~= Seq::<u8>::empty());
        self.send_packet_directly(&mut heartbeat_ack);
    }

    /// A HEARTBEAT_ACK shows the peer is alive.
    pub fn process_heartbeat_ack(&mut self, now: i64)
        ensures
            *final(self) == (UcpStream { alive_time: now, ..*old(self) }),
    {
        self.alive_time = now;
    }

    /// Handles a SYN_ACK: acknowledges it at once, echoing its sequence number and
    /// timestamp; while connecting, completes the handshake when it echoes the SYN
    /// still in flight, and takes `una` from it.
    pub fn process_syn_ack(&mut self, packet: UcpPacket, now: i64)
        requires
            old(self).wf(),
            is_fresh(packet),
        ensures
            final(self).wf(),
            state_advances(old(self).state, final(self).state),
            old(self).state == UcpState::CONNECTING && final(self).state == UcpState::ESTABLISHED
                ==> final(self).una == wrap32(packet.seq + 1),
            final(self).state == old(self).state ==> final(self).una == old(self).una,
            final(self).recv_queue == old(self).recv_queue,
            final(self).ack_list == old(self).ack_list,
            final(self).send_buffer == old(self).send_buffer,
            final(self).session_id == old(self).session_id,
            final(self).seq == old(self).seq,
            final(self).alive_time == old(self).alive_time,
            final(self).heartbeat == old(self).heartbeat,
            final(self).initial_time == old(self).initial_time,
            final(self).remote_window == old(self).remote_window,
            final(self).local_window == old(self).local_window,
            packet.cmd != CMD_SYN_ACK || packet.payload != 8 ==> *final(self) == *old(self),
            packet.cmd == CMD_SYN_ACK && packet.payload == 8 ==> {
                &&& final(self).datagrams().len() == old(self).datagrams().len() + 1
                &&& final(self).datagrams().last() == encode(
                    UcpHeader {
                        session_id: old(self).session_id,
                        timestamp: elapsed_ms(now, old(self).initial_time),
                        window: old(self).local_window,
                        xmit: 0,
                        una: old(self).una,
                        seq: 0,
                        cmd: CMD_ACK,
                    },
                    be32(packet.seq) + be32(packet.timestamp),
                )
                &&& (final(self).state == UcpState::ESTABLISHED) == (old(self).state
                    == UcpState::ESTABLISHED || (old(self).state == UcpState::CONNECTING
                    && in_flight_pair(old(self).send_queue@, echoed_seq(packet), echoed_timestamp(packet))))
                &&& old(self).state == UcpState::CONNECTING ==> final(self).send_queue@ == ack_one(
                    old(self).send_queue@,
                    echoed_seq(packet),
                    echoed_timestamp(packet),
                )
                &&& old(self).state != UcpState::CONNECTING ==> final(self).send_queue == old(self).send_queue
            },
    {
        if packet.cmd == CMD_SYN_ACK && packet.payload == 8 {
            let mut packet = packet;
            let seq = packet.payload_read_u32();
            let timestamp = packet.payload_read_u32();

            let mut ack = self.new_noseq_packet(CMD_ACK, now);
            ack.payload_write_u32(packet.seq);
            ack.payload_write_u32(packet.timestamp);
            assert(ack.payload_bytes() =~= be32(packet.seq) + be32(packet.timestamp));
            self.send_packet_directly(&mut ack);
            let ghost d = self.datagrams();
            assert(d.last() == ack.bytes());

            match self.state {
                UcpState::CONNECTING => {
                    let matched = self.has_in_flight(seq, timestamp);
                    let acked = self.process_an_ack(seq, timestamp, now);
                    if acked && matched {
                        self.state = UcpState::ESTABLISHED;
                        assert(packet.seq == wrap32(packet.seq + 0));
                        self.una = seq_next(packet.seq, Ghost(packet.seq as int));
                    }
                },
                _ => {},
            }
            assert(self.datagrams() == d);
        }
    }

    /// While connecting only a SYN_ACK moves the handshake on.
    pub fn process_state_connecting(&mut self, packet: UcpPacket, now: i64)
        requires
            old(self).wf(),
            old(self).state == UcpState::CONNECTING,
            is_fresh(packet),
        ensures
            final(self).wf(),
            final(self).state == UcpState::CONNECTING || final(self).state == UcpState::ESTABLISHED,
            (final(self).state == UcpState::ESTABLISHED) == (packet.cmd == CMD_SYN_ACK && packet.payload == 8
                && in_flight_pair(old(self).send_queue@, echoed_seq(packet), echoed_timestamp(packet))),
            final(self).state == UcpState::ESTABLISHED ==> final(self).una == wrap32(packet.seq + 1),
            final(self).state == UcpState::CONNECTING ==> final(self).una == old(self).una,
            final(self).recv_queue == old(self).recv_queue,
            final(self).send_buffer == old(self).send_buffer,
            final(self).session_id == old(self).session_id,
            final(self).seq == old(self).seq,
            final(self).alive_time == old(self).alive_time,
            final(self).remote_window == old(self).remote_window,
    {
        self.process_syn_ack(packet, now);
    }

    /// While accepting: an ACK that echoes the SYN_ACK still in flight completes
    /// the handshake.
    pub fn process_state_accepting(&mut self, packet: UcpPacket, now: i64)
        requires
            old(self).wf(),
            old(self).state == UcpState::ACCEPTING,
            is_fresh(packet),
        ensures
            final(self).wf(),
            final(self).state == UcpState::ACCEPTING || final(self).state == UcpState::ESTABLISHED,
            (final(self).state == UcpState::ESTABLISHED) == (packet.cmd == CMD_ACK && packet.payload == 8
                && in_flight_pair(old(self).send_queue@, echoed_seq(packet), echoed_timestamp(packet))),
            packet.cmd == CMD_ACK && packet.payload == 8 ==> final(self).send_queue@ == ack_one(
                old(self).send_queue@,
                echoed_seq(packet),
                echoed_timestamp(packet),
            ),
            !(packet.cmd == CMD_ACK && packet.payload == 8) ==> *final(self) == *old(self),
            *final(self) == (UcpStream {
                state: final(self).state,
                send_queue: final(self).send_queue,
                rto: final(self).rto,
                ..*old(self)
            }),
    {
        if packet.cmd == CMD_ACK && packet.payload == 8 {
            let mut packet = packet;
            let seq = packet.payload_read_u32();
            let timestamp = packet.payload_read_u32();
            let matched = self.has_in_flight(seq, timestamp);
            let acked = self.process_an_ack(seq, timestamp, now);
            if acked && matched {
                self.state = UcpState::ESTABLISHED;
            }
        }
    }

    /// Applies each `(seq, timestamp)` pair of an ACK whose payload is a whole
    /// number of pairs, in order.
    #[verifier::rlimit(60)]
    pub fn process_ack(&mut self, packet: UcpPacket, now: i64)
        requires
            old(self).wf(),
            is_fresh(packet),
        ensures
            final(self).wf(),
            packet.cmd != CMD_ACK || packet.payload % 8 != 0 ==> *final(self) == *old(self),
            packet.cmd == CMD_ACK && packet.payload % 8 == 0 ==> {
                &&& final(self).send_queue@ == ack_all(
                    old(self).send_queue@,
                    packet.bytes(),
                    UCP_PACKET_META_SIZE as int,
                    packet.size as int,
                )
                &&& final(self).rto == rto_all(
                    old(self).rto,
                    elapsed_ms(now, old(self).initial_time),
                    packet.bytes(),
                    UCP_PACKET_META_SIZE as int,
                    packet.size as int,
                )
            },
            *final(self) == (UcpStream {
                send_queue: final(self).send_queue,
                rto: final(self).rto,
                ..*old(self)
            }),
            final(self).send_queue@.len() <= old(self).send_queue@.len(),
    {
        if packet.cmd == CMD_ACK && packet.payload % 8 == 0 {
            let ghost b = packet.bytes();
            let ghost end = packet.size as int;
            let ghost now_ts = elapsed_ms(now, old(self).initial_time);
            let mut packet = packet;
            while packet.payload_remaining() > 0
                invariant
                    self.wf(),
                    packet.wf(),
                    packet.bytes() == b,
                    packet.size == end,
                    now_ts == elapsed_ms(now, old(self).initial_time),
                    packet.size == UCP_PACKET_META_SIZE + packet.payload,
                    packet.read_pos >= UCP_PACKET_META_SIZE,
                    packet.read_pos <= packet.size,
                    (packet.size - packet.read_pos) % 8 == 0,
                    *self == (UcpStream { send_queue: self.send_queue, rto: self.rto, ..*old(self) }),
                    self.send_queue@.len() <= old(self).send_queue@.len(),
                    ack_all(self.send_queue@, b, packet.read_pos as int, end) == ack_all(
                        old(self).send_queue@,
                        b,
                        UCP_PACKET_META_SIZE as int,
                        end,
                    ),
                    rto_all(self.rto, now_ts, b, packet.read_pos as int, end) == rto_all(
                        old(self).rto,
                        now_ts,
                        b,
                        UCP_PACKET_META_SIZE as int,
                        end,
                    ),
                decreases packet.size - packet.read_pos,
            {
                let ghost rp = packet.read_pos as int;
                let ghost rto0 = self.rto;
                let seq = packet.payload_read_u32();
                let timestamp = packet.payload_read_u32();
                assert(timestamp == read_be32(b, rp + 4));
                self.process_an_ack(seq, timestamp, now);
                assert(self.rto == next_rto(rto0, rtt_of(now_ts, read_be32(b, rp + 4))));
                assert(rto_all(rto0, now_ts, b, rp, end) == rto_all(self.rto, now_ts, b, rp + 8, end));
            }
            assert(ack_all(self.send_queue@, b, packet.read_pos as int, end) == self.send_queue@);
            assert(rto_all(self.rto, now_ts, b, packet.read_pos as int, end) == self.rto);
        }
    }

    /// Dispatches a packet of the established session.
    pub fn process_state_established(&mut self, packet: UcpPacket, now: i64)
        requires
            old(self).wf(),
            old(self).state == UcpState::ESTABLISHED,
            is_fresh(packet),
        ensures
            final(self).wf(),
            final(self).state == UcpState::ESTABLISHED,
            una_forward(old(self).una, final(self).una, final(self).recv_queue@.len()),
            final(self).session_id == old(self).session_id,
            final(self).seq == old(self).seq,
            final(self).send_buffer == old(self).send_buffer,
            packet.cmd == CMD_DATA ==> final(self).ack_list@ == old(self).ack_list@.push(
                (packet.seq, packet.timestamp),
            ),
            packet.cmd != CMD_DATA ==> final(self).ack_list == old(self).ack_list,
            packet.cmd == CMD_DATA ==> data_step(
                UcpStream { send_queue: final(self).send_queue, ..*old(self) },
                *final(self),
                packet,
            ),
            packet.cmd == CMD_DATA ==> una_popped(old(self).send_queue@, final(self).send_queue@, packet.una),
            packet.cmd == CMD_DATA && is_duplicate(old(self).recv_queue@, old(self).una, packet.seq)
                ==> final(self).recv_queue == old(self).recv_queue && final(self).una == old(self).una,
            is_duplicate(final(self).recv_queue@, final(self).una, packet.seq) || packet.cmd != CMD_DATA,
            packet.cmd == CMD_HEARTBEAT ==> final(self).datagrams().len() == old(self).datagrams().len() + 1,
            packet.cmd == CMD_HEARTBEAT_ACK ==> final(self).alive_time == now,
            packet.cmd != CMD_DATA ==> final(self).una == old(self).una,
            packet.cmd == CMD_ACK && packet.payload % 8 == 0 ==> exists|mid: Seq<UcpPacket>|
                #[trigger] una_popped(old(self).send_queue@, mid, packet.una) && final(self).send_queue@
                    == ack_all(mid, packet.bytes(), UCP_PACKET_META_SIZE as int, packet.size as int)
                    && final(self).rto == rto_all(
                    old(self).rto,
                    elapsed_ms(now, old(self).initial_time),
                    packet.bytes(),
                    UCP_PACKET_META_SIZE as int,
                    packet.size as int,
                ),
            packet.cmd == CMD_HEARTBEAT ==> final(self).datagrams() == old(self).datagrams().push(
                encode(noseq_header(*old(self), now, CMD_HEARTBEAT_ACK), Seq::empty()),
            ),
            packet.cmd == CMD_HEARTBEAT ==> una_popped(old(self).send_queue@, final(self).send_queue@, packet.una),
            packet.cmd != CMD_ACK && packet.cmd != CMD_SYN_ACK ==> final(self).rto == old(self).rto,
            packet.cmd != CMD_HEARTBEAT_ACK ==> final(self).alive_time == old(self).alive_time,
            final(self).heartbeat == old(self).heartbeat,
            final(self).initial_time == old(self).initial_time,
            final(self).remote_window == old(self).remote_window,
    {
        assert(old(self).una == wrap32(old(self).una + 0nat));
        self.process_una(packet.una);
        let ghost mid = self.send_queue@;
        if packet.cmd == CMD_ACK {
            self.process_ack(packet, now);
            assert(una_popped(old(self).send_queue@, mid, packet.una));
        } else if packet.cmd == CMD_DATA {
            self.process_data(packet);
            proof {
                if is_duplicate(old(self).recv_queue@, old(self).una, packet.seq) {
                    assert(self.una == old(self).una);
                }
            }
        } else if packet.cmd == CMD_SYN_ACK {
            self.process_syn_ack(packet, now);
        } else if packet.cmd == CMD_HEARTBEAT {
            self.process_heartbeat(now);
        } else if packet.cmd == CMD_HEARTBEAT_ACK {
            self.process_heartbeat_ack(now);
        }
    }

    /// Handles a packet of this stream's session: refreshes liveness and the
    /// peer's window, then acts by state. A packet of another session is dropped.
    #[verifier::rlimit(60)]
    pub fn processing(&mut self, packet: UcpPacket, now: i64)
        requires
            old(self).wf(),
            is_fresh(packet),
        ensures
            final(self).wf(),
            state_advances(old(self).state, final(self).state),
            packet.session_id != old(self).session_id ==> *final(self) == *old(self),
            packet.session_id == old(self).session_id ==> {
                &&& final(self).remote_window == packet.window
                &&& (final(self).alive_time == now || old(self).state == UcpState::NONE)
            },
            old(self).state == UcpState::ESTABLISHED ==> una_forward(
                old(self).una,
                final(self).una,
                final(self).recv_queue@.len(),
            ),
            old(self).state == UcpState::ACCEPTING ==> final(self).una == old(self).una,
            old(self).state == UcpState::ESTABLISHED && packet.cmd == CMD_DATA && packet.session_id
                == old(self).session_id ==> established_data_step(*old(self), *final(self), packet, now),
            final(self).session_id == old(self).session_id,
            handshake_step(*old(self), *final(self), packet),
    {
        assert(old(self).una == wrap32(old(self).una + 0nat));
        if self.session_id != packet.session_id {
            return;
        }
        self.alive_time = now;
        self.remote_window = packet.window;
        match self.state {
            UcpState::ACCEPTING => {
                self.process_state_accepting(packet, now);
            },
            UcpState::CONNECTING => {
                self.process_state_connecting(packet, now);
            },
            UcpState::ESTABLISHED => {
                self.process_state_established(packet, now);
            },
            UcpState::NONE => {},
        }
    }

    /// Handles a parsed packet from the peer. A new stream answers only a SYN.
    pub fn process_packet(&mut self, packet: UcpPacket, now: i64)
        requires
            old(self).wf(),
            is_fresh(packet),
        ensures
            final(self).wf(),
            packet_step(*old(self), *final(self), packet, now),
    {
        match self.state {
            UcpState::NONE => {
                if packet.is_syn() {
                    self.accepting(&packet, now);
                }
            },
            _ => {
                self.processing(packet, now);
            },
        }
    }

    /// Whether the peer has been heard from within `UCP_STREAM_BROKEN_MILLIS`.
    pub fn check_if_alive(&self, now: i64) -> (r: bool)
        ensures
            r == (now - self.alive_time < UCP_STREAM_BROKEN_MILLIS),
    {
        (now as i128 - self.alive_time as i128) < UCP_STREAM_BROKEN_MILLIS as i128
    }

    /// Sends a HEARTBEAT when `HEARTBEAT_INTERVAL_MILLIS` have passed since the
    /// last one.
    pub fn do_heartbeat(&mut self, now: i64)
        requires
            old(self).wf(),
        ensures
            final(self).wf(),
            heartbeat_step(*old(self), *final(self), now),
    {
        if (now as i128 - self.heartbeat as i128) >= HEARTBEAT_INTERVAL_MILLIS as i128 {
            let mut heartbeat = self.new_noseq_packet(CMD_HEARTBEAT, now);
            assert(heartbeat.payload_bytes() =~= Seq::<u8>::empty());
            self.send_packet_directly(&mut heartbeat);
            self.heartbeat = now;
        }
    }

    /// Sends the pending acknowledgements, as many pairs per ACK packet as fit,
    /// and clears the list.
    #[verifier::rlimit(60)]
    pub fn send_ack_list(&mut self, now: i64)
        requires
            old(self).wf(),
        ensures
            final(self).wf(),
            ack_flush_step(*old(self), *final(self), now),
    {
        if self.ack_list.len() == 0 {
            assert(self.datagrams().subrange(self.datagrams().len() as int, self.datagrams().len() as int) =~= Seq::<Seq<u8>>::empty());
            assert(self.datagrams().subrange(0, self.datagrams().len() as int) =~= self.datagrams());
            return;
        }
        let ghost h = noseq_header(*self, now, CMD_ACK);
        let ghost d0 = self.datagrams();
        let mut packet = self.new_noseq_packet(CMD_ACK, now);
        let n = self.ack_list.len();
        let mut i: usize = 0;
        assert(packet.payload_bytes() =~= Seq::<u8>::empty());
        assert(self.datagrams().subrange(d0.len() as int, d0.len() as int) =~= Seq::<Seq<u8>>::empty());
        assert(old(self).ack_list@.subrange(0, 0) =~= Seq::<(u32, u32)>::empty());
        while i < n
            invariant
                self.wf(),
                *self == (UcpStream { outbox: self.outbox, ..*old(self) }),
                h == noseq_header(*old(self), now, CMD_ACK),
                d0 == old(self).datagrams(),
                n == self.ack_list@.len(),
                i <= n,
                packet.wf(),
                packet.header_view() == h,
                packet.payload % 8 == 0,
                i > 0 ==> packet.payload > 0,
                forall|j: int|
                    d0.len() <= j < self.datagrams().len() ==> payload_of(#[trigger] self.datagrams()[j]).len()
                        == ACK_PAIRS_PER_PACKET * 8,
                self.datagrams().len() >= d0.len(),
                self.datagrams().subrange(0, d0.len() as int) == d0,
                payloads(self.datagrams().subrange(d0.len() as int, self.datagrams().len() as int))
                    + packet.payload_bytes() == ack_bytes(self.ack_list@.subrange(0, i as int)),
                forall|j: int|
                    d0.len() <= j < self.datagrams().len() ==> #[trigger] self.datagrams()[j] == encode(
                        h,
                        payload_of(self.datagrams()[j]),
                    ),
            decreases n - i,
        {
            let (seq, timestamp) = self.ack_list[i];
            let ghost l = self.ack_list@;
            if packet.remaining_load() < 8 {
                let ghost dprev = self.datagrams();
                let ghost p = packet.payload_bytes();
                assert(packet.payload == 1368);
                self.send_packet_directly(&mut packet);
                proof {
                    assert forall|j: int| d0.len() <= j < self.datagrams().len() implies payload_of(#[trigger] self.datagrams()[j]).len()
                        == ACK_PAIRS_PER_PACKET * 8 by {
                        if j < dprev.len() {
                            assert(self.datagrams()[j] == dprev[j]);
                        } else {
                            assert(self.datagrams()[j] == encode(h, p));
                        }
                    }
                    lemma_payloads_push(dprev.subrange(d0.len() as int, dprev.len() as int), h, p);
                    assert(self.datagrams().subrange(d0.len() as int, self.datagrams().len() as int)
                        =~= dprev.subrange(d0.len() as int, dprev.len() as int).push(encode(h, p)));
                    assert(self.datagrams().subrange(0, d0.len() as int) =~= d0);
                    assert forall|j: int| d0.len() <= j < self.datagrams().len() implies #[trigger] self.datagrams()[j] == encode(
                        h,
                        payload_of(self.datagrams()[j]),
                    ) by {
                        if j < dprev.len() {
                            assert(self.datagrams()[j] == dprev[j]);
                        }
                    }
                }
                packet = self.new_noseq_packet(CMD_ACK, now);
                assert(packet.payload_bytes() =~= Seq::<u8>::empty());
            }
            let ghost p0 = packet.payload_bytes();
            packet.payload_write_u32(seq);
            packet.payload_write_u32(timestamp);
            proof {
                assert(l.subrange(0, i + 1).drop_last() =~= l.subrange(0, i as int));
                assert(l.subrange(0, i + 1).last() == (seq, timestamp));
                let ds = self.datagrams().subrange(d0.len() as int, self.datagrams().len() as int);
                assert(payloads(ds) + packet.payload_bytes() =~= (payloads(ds) + p0) + be32(seq) + be32(timestamp));
            }
            i = i + 1;
        }
        let ghost dprev = self.datagrams();
        let ghost p = packet.payload_bytes();
        self.send_packet_directly(&mut packet);
        self.ack_list.clear();
        proof {
            assert(self.datagrams().last() == encode(h, p));
            assert forall|j: int| d0.len() <= j < self.datagrams().len() - 1 implies payload_of(#[trigger] self.datagrams()[j]).len()
                == ACK_PAIRS_PER_PACKET * 8 by {
                assert(self.datagrams()[j] == dprev[j]);
            }
            lemma_payloads_push(dprev.subrange(d0.len() as int, dprev.len() as int), h, p);
            assert(self.datagrams().subrange(d0.len() as int, self.datagrams().len() as int)
                =~= dprev.subrange(d0.len() as int, dprev.len() as int).push(encode(h, p)));
            assert(self.datagrams().subrange(0, d0.len() as int) =~= d0);
            assert(old(self).ack_list@.subrange(0, n as int) =~= old(self).ack_list@);
            assert forall|j: int| d0.len() <= j < self.datagrams().len() implies #[trigger] self.datagrams()[j] == encode(
                h,
                payload_of(self.datagrams()[j]),
            ) by {
                if j < dprev.len() {
                    assert(self.datagrams()[j] == dprev[j]);
                }
            }
        }
    }

    /// Sends again each packet in flight that is due, with a fresh header.
    pub fn timeout_resend(&mut self, now: i64)
        requires
            old(self).wf(),
        ensures
            final(self).wf(),
            resend_step(*old(self), *final(self), now),
    {
        let now_ts = self.timestamp(now);
        let ghost q0 = self.send_queue@;
        let ghost d0 = self.datagrams();
        assert(d0 + resent(q0, self.send_queue@, now_ts, self.rto, 0) =~= d0);
        let n = self.send_queue.len();
        let mut i: usize = 0;
        while i < n
            invariant
                old(self).wf(),
                q0 == old(self).send_queue@,
                d0 == old(self).datagrams(),
                now_ts == elapsed_ms(now, old(self).initial_time),
                n == q0.len(),
                i <= n,
                self.send_queue@.len() == n,
                *self == (UcpStream { outbox: self.outbox, send_queue: self.send_queue, ..*old(self) }),
                forall|k: int| i <= k < n ==> #[trigger] self.send_queue@[k] == q0[k],
                forall|k: int|
                    0 <= k < i ==> if needs_resend(#[trigger] q0[k], now_ts, old(self).rto) {
                        refreshed(q0[k], self.send_queue@[k], *old(self), now_ts)
                    } else {
                        self.send_queue@[k] == q0[k]
                    },
                self.datagrams() == d0 + resent(q0, self.send_queue@, now_ts, old(self).rto, i as int),
            decreases n - i,
        {
            let interval = now_ts.wrapping_sub(self.send_queue[i].timestamp);
            let skip_resend = self.send_queue[i].skip_times >= SKIP_RESEND_TIMES;
            proof {
                let p = q0[i as int];
                assert(wrap32(now_ts - p.timestamp) == interval) by {
                    if now_ts >= p.timestamp {
                        vstd::arithmetic::div_mod::lemma_small_mod((now_ts - p.timestamp) as nat, 0x1_0000_0000);
                    } else {
                        vstd::arithmetic::div_mod::lemma_mod_add_multiples_vanish(now_ts - p.timestamp, 0x1_0000_0000);
                        vstd::arithmetic::div_mod::lemma_small_mod((now_ts - p.timestamp + 0x1_0000_0000) as nat, 0x1_0000_0000);
                    }
                }
            }
            if interval >= self.rto || skip_resend {
                let ghost before = self.send_queue@;
                let ghost dprev = self.datagrams();
                let mut packet = self.send_queue.remove(i).unwrap();
                let ghost p = packet;
                packet.skip_times = 0;
                packet.window = self.local_window;
                packet.una = self.una;
                packet.timestamp = now_ts;
                proof {
                    vstd::arithmetic::div_mod::lemma_small_mod(p.xmit as nat, 0x1_0000_0000);
                }
                packet.xmit = seq_next(packet.xmit, Ghost(packet.xmit as int));
                self.send_packet_directly(&mut packet);
                self.send_queue.insert(i, packet);
                proof {
                    assert(self.send_queue@ =~= before.update(i as int, packet));
                    lemma_resent_prefix(q0, before, self.send_queue@, now_ts, old(self).rto, i as int);
                    assert(self.datagrams() =~= d0 + resent(q0, self.send_queue@, now_ts, old(self).rto, i + 1));
                }
            } else {
                assert(resent(q0, self.send_queue@, now_ts, old(self).rto, i + 1) == resent(q0, self.send_queue@, now_ts, old(self).rto, i as int));
            }
            i = i + 1;
        }
        proof {
            assert forall|k: int| 0 <= k < self.send_queue@.len() implies (#[trigger] self.send_queue@[k]).wf() by {
                assert(q0[k].wf());
            }
        }
    }

    /// Moves packets from the send buffer into flight while the peer's window has
    /// room, both in count and in sequence span.
    #[verifier::rlimit(100)]
    pub fn send_pending_packets(&mut self, now: i64)
        requires
            old(self).wf(),
        ensures
            final(self).wf(),
            promote_step(*old(self), *final(self), now),
    {
        let now_ts = self.timestamp(now);
        let window = self.remote_window as usize;
        let ghost q0 = self.send_queue@;
        let ghost b0 = self.send_buffer@;
        let ghost d0 = self.datagrams();
        assert(d0 + packed(self.send_queue@.subrange(q0.len() as int, q0.len() as int)) =~= d0);
        while self.send_queue.len() < window
            invariant
                old(self).wf(),
                self.wf(),
                q0 == old(self).send_queue@,
                b0 == old(self).send_buffer@,
                d0 == old(self).datagrams(),
                now_ts == elapsed_ms(now, old(self).initial_time),
                window == old(self).remote_window,
                self.send_queue@.len() >= q0.len(),
                self.send_queue@.subrange(0, q0.len() as int) == q0,
                self.send_queue@.len() - q0.len() <= b0.len(),
                self.send_buffer@ == b0.subrange(self.send_queue@.len() - q0.len(), b0.len() as int),
                forall|j: int|
                    q0.len() <= j < self.send_queue@.len() ==> {
                        let p = b0[j - q0.len()];
                        &&& (#[trigger] self.send_queue@[j]).header_view() == (UcpHeader {
                            window: old(self).local_window,
                            una: old(self).una,
                            timestamp: now_ts,
                            ..p.header_view()
                        })
                        &&& self.send_queue@[j].payload_bytes() == p.payload_bytes()
                        &&& self.send_queue@[j].bytes() == encode(self.send_queue@[j].header_view(), p.payload_bytes())
                    },
                self.send_queue@.len() <= q0.len() || self.send_queue@.len() <= window,
                self.datagrams() == d0 + packed(self.send_queue@.subrange(q0.len() as int, self.send_queue@.len() as int)),
                *self == (UcpStream {
                    outbox: self.outbox,
                    send_queue: self.send_queue,
                    send_buffer: self.send_buffer,
                    ..*old(self)
                }),
            ensures
                self.wf(),
                self.send_queue@.len() >= q0.len(),
                self.send_queue@.subrange(0, q0.len() as int) == q0,
                self.send_queue@.len() - q0.len() <= b0.len(),
                self.send_buffer@ == b0.subrange(self.send_queue@.len() - q0.len(), b0.len() as int),
                forall|j: int|
                    q0.len() <= j < self.send_queue@.len() ==> {
                        let p = b0[j - q0.len()];
                        &&& (#[trigger] self.send_queue@[j]).header_view() == (UcpHeader {
                            window: old(self).local_window,
                            una: old(self).una,
                            timestamp: now_ts,
                            ..p.header_view()
                        })
                        &&& self.send_queue@[j].payload_bytes() == p.payload_bytes()
                        &&& self.send_queue@[j].bytes() == encode(self.send_queue@[j].header_view(), p.payload_bytes())
                    },
                self.send_queue@.len() <= q0.len() || self.send_queue@.len() <= window,
                self.send_buffer@.len() == 0 || self.send_queue@.len() >= window || (
                self.send_queue@.len() > 0 && wrap32(self.send_buffer@[0].seq - self.send_queue@[0].seq)
                    >= window),
                self.datagrams() == d0 + packed(self.send_queue@.subrange(q0.len() as int, self.send_queue@.len() as int)),
                *self == (UcpStream {
                    outbox: self.outbox,
                    send_queue: self.send_queue,
                    send_buffer: self.send_buffer,
                    ..*old(self)
                }),
            decreases self.send_buffer@.len(),
        {
            if self.send_queue.len() > 0 && self.send_buffer.len() > 0 {
                let span = self.send_buffer[0].seq.wrapping_sub(self.send_queue[0].seq);
                proof {
                    let a = self.send_buffer@[0].seq;
                    let b = self.send_queue@[0].seq;
                    assert(wrap32(a - b) == span) by {
                        if a >= b {
                            vstd::arithmetic::div_mod::lemma_small_mod((a - b) as nat, 0x1_0000_0000);
                        } else {
                            vstd::arithmetic::div_mod::lemma_mod_add_multiples_vanish(a - b, 0x1_0000_0000);
                            vstd::arithmetic::div_mod::lemma_small_mod((a - b + 0x1_0000_0000) as nat, 0x1_0000_0000);
                        }
                    }
                }
                if span as usize >= window {
                    break;
                }
            }
            if self.send_buffer.len() == 0 {
                break;
            }
            let ghost sq = self.send_queue@;
            let ghost sb = self.send_buffer@;
            let ghost dprev = self.datagrams();
            let mut packet = self.send_buffer.pop_front().unwrap();
            assert(packet == b0[sq.len() - q0.len()]);
            packet.window = self.local_window;
            packet.una = self.una;
            packet.timestamp = now_ts;
            self.send_packet_directly(&mut packet);
            self.send_queue.push_back(packet);
            proof {
                assert(self.send_buffer@ =~= b0.subrange(self.send_queue@.len() - q0.len(), b0.len() as int));
                assert(self.send_queue@.subrange(0, q0.len() as int) =~= q0);
                assert(self.send_queue@.subrange(q0.len() as int, self.send_queue@.len() as int) =~= sq.subrange(q0.len() as int, sq.len() as int).push(packet));
                assert(self.datagrams() =~= d0 + packed(self.send_queue@.subrange(q0.len() as int, self.send_queue@.len() as int)));
                assert forall|j: int| 0 <= j < self.send_queue@.len() implies (#[trigger] self.send_queue@[j]).wf() by {
                    if j < sq.len() {
                        assert(self.send_queue@[j] == sq[j]);
                    }
                }
                assert forall|j: int| 0 <= j < self.send_buffer@.len() implies (#[trigger] self.send_buffer@[j]).wf() by {
                    assert(self.send_buffer@[j] == sb[j + 1]);
                }
                assert forall|j: int| q0.len() <= j < self.send_queue@.len() implies {
                    let p = b0[j - q0.len()];
                    &&& (#[trigger] self.send_queue@[j]).header_view() == (UcpHeader {
                        window: old(self).local_window,
                        una: old(self).una,
                        timestamp: now_ts,
                        ..p.header_view()
                    })
                    &&& self.send_queue@[j].payload_bytes() == p.payload_bytes()
                    &&& self.send_queue@[j].bytes() == encode(self.send_queue@[j].header_view(), p.payload_bytes())
                } by {
                    if j < sq.len() {
                        assert(self.send_queue@[j] == sq[j]);
                    }
                }
            }
        }
    }

    /// One tick: gives up on a silent peer (returns false, changing nothing);
    /// otherwise sends a due heartbeat, the pending acknowledgements, the due
    /// retransmissions and what the window admits, and returns true.
    #[verifier::rlimit(100)]
    pub fn update(&mut self, now: i64) -> (r: bool)
        requires
            old(self).wf(),
        ensures
            final(self).wf(),
            update_step(*old(self), *final(self), now, r),
    {
        if !self.check_if_alive(now) {
            return false;
        }
        let ghost d0 = self.datagrams();
        self.do_heartbeat(now);
        let ghost d1 = self.datagrams();
        let ghost m1 = *self;
        self.send_ack_list(now);
        let ghost d2 = self.datagrams();
        let ghost m2 = *self;
        self.timeout_resend(now);
        let ghost d3 = self.datagrams();
        let ghost m3 = *self;
        self.send_pending_packets(now);
        proof {
            assert(heartbeat_step(*old(self), m1, now) && ack_flush_step(m1, m2, now) && resend_step(m2, m3, now)
                && promote_step(m3, *self, now));
            assert(d1.subrange(0, d0.len() as int) =~= d0);
            assert(d2.subrange(0, d0.len() as int) =~= d1.subrange(0, d0.len() as int));
            assert(d3.subrange(0, d0.len() as int) =~= d2.subrange(0, d0.len() as int));
            assert(self.datagrams().subrange(0, d0.len() as int) =~= d3.subrange(0, d0.len() as int));
        }
        true
    }

    /// Where a DATA packet goes in the receive queue: `None` when the scan meets
    /// an equal sequence number first.
    pub fn find_recv_position(&self, seq: u32) -> (r: Option<usize>)
        ensures
            r is None ==> exists|k: int|
                0 <= k < self.recv_queue@.len() && (#[trigger] self.recv_queue@[k]).seq == seq
                    && forall|j: int| 0 <= j < k ==> seq_diff(seq, #[trigger] self.recv_queue@[j].seq) > 0,
            r matches Some(pos) ==> {
                &&& pos <= self.recv_queue@.len()
                &&& forall|j: int| 0 <= j < pos ==> seq_diff(seq, #[trigger] self.recv_queue@[j].seq) > 0
                &&& pos < self.recv_queue@.len() ==> seq_diff(seq, self.recv_queue@[pos as int].seq) < 0
            },
    {
        let n = self.recv_queue.len();
        let mut pos: usize = 0;
        while pos < n
            invariant
                n == self.recv_queue@.len(),
                pos <= n,
                forall|j: int| 0 <= j < pos ==> seq_diff(seq, #[trigger] self.recv_queue@[j].seq) > 0,
            ensures
                pos <= n,
                pos < n ==> seq_diff(seq, self.recv_queue@[pos as int].seq) < 0,
                forall|j: int| 0 <= j < pos ==> seq_diff(seq, #[trigger] self.recv_queue@[j].seq) > 0,
            decreases n - pos,
        {
            let d = seq_distance(seq, self.recv_queue[pos].seq);
            if d == 0 {
                proof {
                    lemma_seq_diff_flip(seq, self.recv_queue@[pos as int].seq);
                }
                return None;
            } else if d < 0 {
                break;
            }
            pos = pos + 1;
        }
        Some(pos)
    }

    /// Moves `una` past the packets from `from` on whose sequence numbers follow
    /// it without a gap.
    pub fn advance_una(&mut self, from: usize)
        requires
            from <= old(self).recv_queue@.len(),
        ensures
            *final(self) == (UcpStream { una: final(self).una, ..*old(self) }),
            una_forward(old(self).una, final(self).una, old(self).recv_queue@.len()),
            final(self).una == advanced_una(old(self).recv_queue@, from as int, old(self).una),
    {
        let len = self.recv_queue.len();
        let mut i: usize = from;
        let ghost una0 = self.una;
        assert(una0 == wrap32(una0 + 0));
        while i < len
            invariant
                len == self.recv_queue@.len(),
                from <= i <= len,
                self.una == wrap32(una0 + (i - from)),
                una0 == old(self).una,
                *self == (UcpStream { una: self.una, ..*old(self) }),
                advanced_una(self.recv_queue@, i as int, self.una) == advanced_una(
                    self.recv_queue@,
                    from as int,
                    una0,
                ),
            ensures
                from <= i <= len,
                self.una == wrap32(una0 + (i - from)),
                *self == (UcpStream { una: self.una, ..*old(self) }),
                advanced_una(self.recv_queue@, from as int, una0) == self.una,
            decreases len - i,
        {
            if self.recv_queue[i].seq == self.una {
                proof {
                    lemma_wrap_again_succ(una0 + (i - from));
                }
                self.una = seq_next(self.una, Ghost(una0 + (i - from)));
            } else {
                break;
            }
            i = i + 1;
        }
        let ghost k: nat = (i - from) as nat;
        assert(self.una == wrap32(una0 + k));
    }

    /// Acknowledges a DATA packet and files it in the receive queue.
    pub fn process_data(&mut self, packet: UcpPacket)
        requires
            old(self).wf(),
            is_parsed(packet),
        ensures
            final(self).wf(),
            data_step(*old(self), *final(self), packet),
    {
        self.ack_list.push((packet.seq, packet.timestamp));
        if seq_distance(packet.seq, self.una) < 0 {
            return;
        }
        let ghost q0 = self.recv_queue@;
        let ghost seq = packet.seq;
        match self.find_recv_position(packet.seq) {
            None => {},
            Some(pos) => {
                proof {
                    lemma_insert_keeps_order(q0, pos as int, packet, old(self).una);
                }
                self.recv_queue.insert(pos, packet);
                self.advance_una(pos);
                proof {
                    lemma_insert_keeps_order(q0, pos as int, packet, self.una);
                }
            },
        }
    }
}

} // verus!
