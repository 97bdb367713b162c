//! The mathematical model of a stream: what each step does to its queues and
//! counters, stated over sequences, and the laws that follow.

use vstd::prelude::*;
use crate::packet::{
    UcpPacket, UcpHeader, encode, be32, read_be32, UCP_PACKET_META_SIZE, CMD_DATA, CMD_ACK,
    CMD_HEARTBEAT, CMD_SYN, CMD_SYN_ACK,
};
use crate::seqnum::{seq_diff, wrap32, lemma_forward_not_behind};
use crate::stream::{
    ACK_PAIRS_PER_PACKET, UcpStream, UcpState, SKIP_RESEND_TIMES, HEARTBEAT_INTERVAL_MILLIS, UCP_STREAM_BROKEN_MILLIS,
};

verus! {

/// Each packet of the queue precedes the next one in sequence order.
pub open spec fn recv_sorted(q: Seq<UcpPacket>) -> bool {
    forall|i: int| 0 <= i < q.len() - 1 ==> seq_diff(#[trigger] q[i].seq, q[i + 1].seq) < 0
}

/// A DATA packet with this sequence number would change nothing but the list of
/// acknowledgements: it lies before `una`, or the scan for its place meets an
/// equal sequence number first.
pub open spec fn is_duplicate(q: Seq<UcpPacket>, una: u32, seq: u32) -> bool {
    seq_diff(seq, una) < 0 || exists|k: int|
        0 <= k < q.len() && (#[trigger] q[k]).seq == seq && forall|j: int|
            0 <= j < k ==> seq_diff(seq, #[trigger] q[j].seq) > 0
}

/// `new_una` is `old_una` moved forward by at most `bound` packets.
pub open spec fn una_forward(old_una: u32, new_una: u32, bound: nat) -> bool {
    exists|k: nat| k <= bound && new_una == #[trigger] wrap32(old_una + k)
}

/// What receiving a DATA packet does to a stream: it is acknowledged; a duplicate
/// changes nothing else; any other packet takes its place in the receive queue,
/// and `una` moves past the packets that are now contiguous.
pub open spec fn data_step(s: UcpStream, t: UcpStream, p: UcpPacket) -> bool {
    &&& t.ack_list@ == s.ack_list@.push((p.seq, p.timestamp))
    &&& is_duplicate(t.recv_queue@, t.una, p.seq)
    &&& is_duplicate(s.recv_queue@, s.una, p.seq) ==> t == (UcpStream { ack_list: t.ack_list, ..s })
    &&& !is_duplicate(s.recv_queue@, s.una, p.seq) ==> {
        &&& t == (UcpStream { ack_list: t.ack_list, recv_queue: t.recv_queue, una: t.una, ..s })
        &&& exists|pos: int|
            0 <= pos <= s.recv_queue@.len() && t.recv_queue@ == s.recv_queue@.insert(pos, p)
                && (forall|j: int| 0 <= j < pos ==> seq_diff(p.seq, #[trigger] s.recv_queue@[j].seq) > 0)
                && (pos < s.recv_queue@.len() ==> seq_diff(p.seq, s.recv_queue@[pos].seq) < 0)
                && t.una == advanced_una(t.recv_queue@, pos, s.una)
        &&& una_forward(s.una, t.una, t.recv_queue@.len())
    }
}

/// `una` moved past the run of packets of `q`, from position `i` on, whose
/// sequence numbers continue it one by one.
pub open spec fn advanced_una(q: Seq<UcpPacket>, i: int, una: u32) -> u32
    decreases q.len() - i,
{
    if i < 0 || i >= q.len() || q[i].seq != una {
        una
    } else {
        advanced_una(q, i + 1, wrap32(una + 1))
    }
}


/// A packet in flight after an acknowledgement with echoed timestamp `ts`: one
/// more skip when it was sent no later than the acknowledged one.
pub open spec fn bumped(p: UcpPacket, ts: u32) -> UcpPacket {
    if p.timestamp <= ts {
        UcpPacket {
            skip_times: if p.skip_times == u32::MAX {
                p.skip_times
            } else {
                (p.skip_times + 1) as u32
            },
            ..p
        }
    } else {
        p
    }
}

pub open spec fn bump_all(q: Seq<UcpPacket>, ts: u32) -> Seq<UcpPacket> {
    q.map_values(|p: UcpPacket| bumped(p, ts))
}

pub(crate) proof fn lemma_data_bytes_push(q: Seq<UcpPacket>, p: UcpPacket)
    ensures
        data_bytes(q.push(p)) == data_bytes(q) + if p.cmd == CMD_DATA {
            p.payload_bytes()
        } else {
            Seq::empty()
        },
{
    assert(q.push(p).drop_last() =~= q);
    if p.cmd != CMD_DATA {
        assert(data_bytes(q) + Seq::<u8>::empty() =~= data_bytes(q));
    }
}

/// A packet as `parse` leaves it: decoded, nothing read yet.
pub open spec fn is_fresh(p: UcpPacket) -> bool {
    is_parsed(p) && p.read_pos == UCP_PACKET_META_SIZE
}

/// The lifecycle only moves forward: NONE to ACCEPTING or CONNECTING, those two to
/// ESTABLISHED.
pub open spec fn state_advances(a: UcpState, b: UcpState) -> bool {
    a == b || match a {
        UcpState::NONE => true,
        UcpState::ACCEPTING => b == UcpState::ESTABLISHED,
        UcpState::CONNECTING => b == UcpState::ESTABLISHED,
        UcpState::ESTABLISHED => false,
    }
}

/// The `(seq, timestamp)` pair echoed at the start of a packet's payload.
pub open spec fn echoed_seq(p: UcpPacket) -> u32 {
    read_be32(p.bytes(), UCP_PACKET_META_SIZE as int)
}

pub open spec fn echoed_timestamp(p: UcpPacket) -> u32 {
    read_be32(p.bytes(), UCP_PACKET_META_SIZE + 4)
}

/// Whether some packet in flight has this sequence number and timestamp.
pub open spec fn in_flight_pair(q: Seq<UcpPacket>, seq: u32, ts: u32) -> bool {
    exists|k: int| 0 <= k < q.len() && (#[trigger] q[k]).seq == seq && q[k].timestamp == ts
}

/// Whether some packet in flight has this sequence number.
pub open spec fn in_flight(q: Seq<UcpPacket>, seq: u32) -> bool {
    exists|k: int| 0 <= k < q.len() && (#[trigger] q[k]).seq == seq
}

/// The ACK payload bytes for a list of `(seq, timestamp)` pairs.
pub open spec fn ack_bytes(l: Seq<(u32, u32)>) -> Seq<u8>
    decreases l.len(),
{
    if l.len() == 0 {
        Seq::empty()
    } else {
        ack_bytes(l.drop_last()) + be32(l.last().0) + be32(l.last().1)
    }
}

/// The payload of a datagram.
pub open spec fn payload_of(d: Seq<u8>) -> Seq<u8> {
    d.subrange(UCP_PACKET_META_SIZE as int, d.len() as int)
}

/// The payloads of a run of datagrams, concatenated.
pub open spec fn payloads(ds: Seq<Seq<u8>>) -> Seq<u8>
    decreases ds.len(),
{
    if ds.len() == 0 {
        Seq::empty()
    } else {
        payloads(ds.drop_last()) + payload_of(ds.last())
    }
}

/// The header of a packet without a sequence number, as the stream makes it.
pub open spec fn noseq_header(s: UcpStream, now: i64, cmd: u8) -> UcpHeader {
    UcpHeader {
        session_id: s.session_id,
        timestamp: elapsed_ms(now, s.initial_time),
        window: s.local_window,
        xmit: 0,
        una: s.una,
        seq: 0,
        cmd,
    }
}

pub(crate) proof fn lemma_payloads_push(ds: Seq<Seq<u8>>, h: UcpHeader, p: Seq<u8>)
    ensures
        payloads(ds.push(encode(h, p))) == payloads(ds) + p,
        payload_of(encode(h, p)) == p,
{
    assert(ds.push(encode(h, p)).drop_last() =~= ds);
    assert(payload_of(encode(h, p)) =~= p);
}

/// Whether a packet in flight is due again: its timeout has run out, or later
/// packets were acknowledged `SKIP_RESEND_TIMES` times.
pub open spec fn needs_resend(p: UcpPacket, now_ts: u32, rto: u32) -> bool {
    wrap32(now_ts - p.timestamp) >= rto || p.skip_times >= SKIP_RESEND_TIMES
}

/// A packet as it goes out again.
pub open spec fn refreshed(p: UcpPacket, q: UcpPacket, s: UcpStream, now_ts: u32) -> bool {
    &&& q.wf()
    &&& q.header_view() == (UcpHeader {
        window: s.local_window,
        una: s.una,
        timestamp: now_ts,
        xmit: wrap32(p.xmit + 1),
        ..p.header_view()
    })
    &&& q.payload_bytes() == p.payload_bytes()
    &&& q.skip_times == 0
    &&& q.bytes() == encode(q.header_view(), q.payload_bytes())
}

/// The packed bytes of each packet of a queue.
pub open spec fn packed(q: Seq<UcpPacket>) -> Seq<Seq<u8>> {
    q.map_values(|p: UcpPacket| p.bytes())
}

/// The datagrams a retransmission pass sends: in queue order, the packed bytes
/// of each of the first `n` packets that was due.
pub open spec fn resent(q0: Seq<UcpPacket>, q1: Seq<UcpPacket>, now_ts: u32, rto: u32, n: int) -> Seq<Seq<u8>>
    decreases n,
{
    if n <= 0 {
        Seq::empty()
    } else {
        let r = resent(q0, q1, now_ts, rto, n - 1);
        if needs_resend(q0[n - 1], now_ts, rto) {
            r.push(q1[n - 1].bytes())
        } else {
            r
        }
    }
}

pub(crate) proof fn lemma_resent_prefix(
    q0: Seq<UcpPacket>,
    q1: Seq<UcpPacket>,
    q2: Seq<UcpPacket>,
    now_ts: u32,
    rto: u32,
    n: int,
)
    requires
        forall|j: int| 0 <= j < n ==> #[trigger] q1[j] == q2[j],
    ensures
        resent(q0, q1, now_ts, rto, n) == resent(q0, q2, now_ts, rto, n),
    decreases n,
{
    if n > 0 {
        lemma_resent_prefix(q0, q1, q2, now_ts, rto, n - 1);
        assert(q1[n - 1] == q2[n - 1]);
    }
}

/// The send queue after one acknowledged pair: the first packet with that
/// sequence number leaves, and each packet before it that was sent no later gets
/// one more skip.
pub open spec fn ack_one(q: Seq<UcpPacket>, seq: u32, ts: u32) -> Seq<UcpPacket>
    decreases q.len(),
{
    if q.len() == 0 {
        q
    } else if q[0].seq == seq {
        q.drop_first()
    } else {
        seq![bumped(q[0], ts)] + ack_one(q.drop_first(), seq, ts)
    }
}

/// The send queue after the pairs in `b[from..to]`, taken in order.
pub open spec fn ack_all(q: Seq<UcpPacket>, b: Seq<u8>, from: int, to: int) -> Seq<UcpPacket>
    decreases to - from,
{
    if from + 8 > to {
        q
    } else {
        ack_all(ack_one(q, read_be32(b, from), read_be32(b, from + 4)), b, from + 8, to)
    }
}

/// The retransmit timeout after the pairs in `b[from..to]`, taken in order.
pub open spec fn rto_all(rto: u32, now_ts: u32, b: Seq<u8>, from: int, to: int) -> u32
    decreases to - from,
{
    if from + 8 > to {
        rto
    } else {
        rto_all(next_rto(rto, rtt_of(now_ts, read_be32(b, from + 4))), now_ts, b, from + 8, to)
    }
}

pub(crate) proof fn lemma_ack_one_found(q: Seq<UcpPacket>, seq: u32, ts: u32, k: int)
    requires
        0 <= k < q.len(),
        q[k].seq == seq,
        forall|j: int| 0 <= j < k ==> (#[trigger] q[j]).seq != seq,
    ensures
        ack_one(q, seq, ts) == bump_all(q.subrange(0, k), ts) + q.subrange(k + 1, q.len() as int),
    decreases k,
{
    if k == 0 {
        assert(q.drop_first() =~= q.subrange(1, q.len() as int));
        assert(bump_all(q.subrange(0, 0), ts) =~= Seq::<UcpPacket>::empty());
    } else {
        let r = q.drop_first();
        assert forall|j: int| 0 <= j < k - 1 implies (#[trigger] r[j]).seq != seq by {
            assert(r[j] == q[j + 1]);
        }
        lemma_ack_one_found(r, seq, ts, k - 1);
        assert(r.subrange(k, r.len() as int) =~= q.subrange(k + 1, q.len() as int));
        assert(bump_all(q.subrange(0, k), ts) =~= seq![bumped(q[0], ts)] + bump_all(r.subrange(0, k - 1), ts));
    }
}

pub(crate) proof fn lemma_ack_one_missing(q: Seq<UcpPacket>, seq: u32, ts: u32)
    requires
        forall|j: int| 0 <= j < q.len() ==> (#[trigger] q[j]).seq != seq,
    ensures
        ack_one(q, seq, ts) == bump_all(q, ts),
    decreases q.len(),
{
    if q.len() == 0 {
        assert(bump_all(q, ts) =~= q);
    } else {
        let r = q.drop_first();
        assert forall|j: int| 0 <= j < r.len() implies (#[trigger] r[j]).seq != seq by {
            assert(r[j] == q[j + 1]);
        }
        lemma_ack_one_missing(r, seq, ts);
        assert(bump_all(q, ts) =~= seq![bumped(q[0], ts)] + bump_all(r, ts));
    }
}

/// `q1` is `q0` without the leading packets that precede `una`.
pub open spec fn una_popped(q0: Seq<UcpPacket>, q1: Seq<UcpPacket>, una: u32) -> bool {
    &&& q1.len() <= q0.len()
    &&& q1 == q0.subrange(q0.len() - q1.len(), q0.len() as int)
    &&& forall|i: int| 0 <= i < q0.len() - q1.len() ==> seq_diff(#[trigger] q0[i].seq, una) < 0
    &&& q1.len() > 0 ==> seq_diff(q1[0].seq, una) >= 0
}

/// What receiving a DATA packet of the session does to an established stream at
/// time `now`: the packets it acknowledges through `una` leave the send queue,
/// liveness and the peer's window are refreshed, and the data step follows.
pub open spec fn established_data_step(s: UcpStream, t: UcpStream, p: UcpPacket, now: i64) -> bool {
    &&& una_popped(s.send_queue@, t.send_queue@, p.una)
    &&& data_step(
        UcpStream { send_queue: t.send_queue, alive_time: now, remote_window: p.window, ..s },
        t,
        p,
    )
}

/// One `recv` with room for `cap` bytes, which handed out `out`: as many of the
/// deliverable bytes as fit, from the front, and those are no longer deliverable.
pub open spec fn recv_step(s: UcpStream, t: UcpStream, out: Seq<u8>, cap: nat) -> bool {
    let d = deliverable(s.recv_queue@, s.una);
    &&& out.len() == if d.len() < cap {
        d.len()
    } else {
        cap
    }
    &&& out == d.subrange(0, out.len() as int)
    &&& deliverable(t.recv_queue@, t.una) == d.subrange(out.len() as int, d.len() as int)
    &&& t == (UcpStream { recv_queue: t.recv_queue, ..s })
}

pub(crate) proof fn lemma_seq_diff_flip(a: u32, b: u32)
    ensures
        seq_diff(a, b) > 0 ==> seq_diff(b, a) < 0,
        seq_diff(a, b) == 0 <==> a == b,
{
}

/// A received packet: decoded, with its cursor inside the payload.
pub open spec fn is_parsed(p: UcpPacket) -> bool {
    &&& p.wf()
    &&& p.size == UCP_PACKET_META_SIZE + p.payload
    &&& UCP_PACKET_META_SIZE <= p.read_pos <= p.size
}

pub open spec fn all_wf(q: Seq<UcpPacket>) -> bool {
    forall|i: int| 0 <= i < q.len() ==> (#[trigger] q[i]).wf()
}

/// The bytes `recv` may hand out: the unread payloads of the leading packets that
/// lie before `una`.
pub open spec fn deliverable(q: Seq<UcpPacket>, una: u32) -> Seq<u8>
    decreases q.len(),
{
    if q.len() == 0 || seq_diff(q[0].seq, una) >= 0 {
        Seq::empty()
    } else {
        q[0].unread() + deliverable(q.drop_first(), una)
    }
}

/// The payloads of the DATA packets of a queue, in order.
pub open spec fn data_bytes(q: Seq<UcpPacket>) -> Seq<u8>
    decreases q.len(),
{
    if q.len() == 0 {
        Seq::empty()
    } else {
        let rest = data_bytes(q.drop_last());
        if q.last().cmd == CMD_DATA {
            rest + q.last().payload_bytes()
        } else {
            rest
        }
    }
}

/// Milliseconds from `initial` to `now`, kept to 32 bits; zero before `initial`.
pub open spec fn elapsed_ms(now: i64, initial: i64) -> u32 {
    if now - initial <= 0 {
        0
    } else {
        ((now - initial) % 0x1_0000_0000) as u32
    }
}

/// Round-trip time from an echoed timestamp; zero when the echo lies in the future.
pub open spec fn rtt_of(now_ts: u32, echoed: u32) -> u32 {
    if seq_diff(now_ts, echoed) < 0 {
        0
    } else {
        seq_diff(now_ts, echoed) as u32
    }
}

/// The smoothed retransmit timeout after one round-trip sample.
pub open spec fn next_rto(rto: u32, rtt: u32) -> u32 {
    ((rto + rtt) / 2) as u32
}

/// Inserting a packet where the scan stopped keeps the queue in order, and the
/// packet is then found by the next scan.
pub(crate) proof fn lemma_insert_keeps_order(q0: Seq<UcpPacket>, pos: int, p: UcpPacket, una: u32)
    requires
        0 <= pos <= q0.len(),
        recv_sorted(q0),
        forall|i: int| 0 <= i < q0.len() ==> is_parsed(#[trigger] q0[i]),
        is_parsed(p),
        forall|j: int| 0 <= j < pos ==> seq_diff(p.seq, #[trigger] q0[j].seq) > 0,
        pos < q0.len() ==> seq_diff(p.seq, q0[pos].seq) < 0,
    ensures
        recv_sorted(q0.insert(pos, p)),
        forall|i: int| 0 <= i < q0.len() + 1 ==> is_parsed(#[trigger] q0.insert(pos, p)[i]),
        is_duplicate(q0.insert(pos, p), una, p.seq),
        seq_diff(p.seq, una) >= 0 ==> !is_duplicate(q0, una, p.seq),
{
    let q1 = q0.insert(pos, p);
    let seq = p.seq;
    assert forall|i: int| 0 <= i < q1.len() - 1 implies seq_diff(#[trigger] q1[i].seq, q1[i + 1].seq) < 0 by {
        if i < pos - 1 {
            assert(q1[i] == q0[i] && q1[i + 1] == q0[i + 1]);
        } else if i == pos - 1 {
            lemma_seq_diff_flip(seq, q0[i].seq);
        } else if i == pos {
        } else {
            assert(q1[i] == q0[i - 1] && q1[i + 1] == q0[i]);
        }
    }
    assert forall|i: int| 0 <= i < q1.len() implies is_parsed(#[trigger] q1[i]) by {
        if i < pos {
            assert(q1[i] == q0[i]);
        } else if i > pos {
            assert(q1[i] == q0[i - 1]);
        }
    }
    assert(q1[pos].seq == seq);
    assert forall|j: int| 0 <= j < pos implies seq_diff(seq, #[trigger] q1[j].seq) > 0 by {
        assert(q1[j] == q0[j]);
    }
    if seq_diff(seq, una) >= 0 && is_duplicate(q0, una, seq) {
        let k = choose|k: int|
            0 <= k < q0.len() && (#[trigger] q0[k]).seq == seq && forall|j: int|
                0 <= j < k ==> seq_diff(seq, #[trigger] q0[j].seq) > 0;
        if k < pos {
            lemma_seq_diff_flip(seq, q0[k].seq);
        } else if k > pos {
            assert(seq_diff(seq, q0[pos].seq) > 0);
        } else {
            lemma_seq_diff_flip(seq, q0[k].seq);
        }
    }
}


/// Receiving the same DATA packet a second time adds one more acknowledgement
/// pair and changes nothing else in the stream.
pub proof fn lemma_duplicate_data(s0: UcpStream, s1: UcpStream, s2: UcpStream, p: UcpPacket)
    requires
        data_step(s0, s1, p),
        data_step(s1, s2, p),
    ensures
        s2 == (UcpStream { ack_list: s2.ack_list, ..s1 }),
        s2.ack_list@ == s1.ack_list@.push((p.seq, p.timestamp)),
{
}

/// `una` never moves back: when it moves forward by at most `bound` packets, with
/// `bound` below 2^31, its new value does not precede the old one.
pub proof fn lemma_una_not_behind(old_una: u32, new_una: u32, bound: nat)
    requires
        una_forward(old_una, new_una, bound),
        bound < 0x8000_0000,
    ensures
        seq_diff(new_una, old_una) >= 0,
{
    let k = choose|k: nat| k <= bound && new_una == #[trigger] wrap32(old_una + k);
    lemma_forward_not_behind(old_una, k as int);
}

/// Receiving the same DATA packet twice at one time, in an established stream:
/// the second receipt adds one more acknowledgement pair, and leaves the send
/// queue, the receive queue, `una` and everything else as the first left them.
pub proof fn lemma_duplicate_packet(s0: UcpStream, s1: UcpStream, s2: UcpStream, p: UcpPacket, now: i64)
    requires
        established_data_step(s0, s1, p, now),
        established_data_step(s1, s2, p, now),
    ensures
        s2.send_queue@ == s1.send_queue@,
        s2 == (UcpStream { ack_list: s2.ack_list, send_queue: s2.send_queue, ..s1 }),
        s2.ack_list@ == s1.ack_list@.push((p.seq, p.timestamp)),
{
    let q1 = s1.send_queue@;
    let q2 = s2.send_queue@;
    if q2.len() < q1.len() {
        assert(seq_diff(q1[0].seq, p.una) < 0);
    }
    assert(q2 =~= q1);
}

/// Successive receives hand out the stream's bytes in order, each call going on
/// where the one before stopped: what two calls return, put together, is the
/// front of what was deliverable before the first.
pub proof fn lemma_recv_in_order(
    s0: UcpStream,
    s1: UcpStream,
    s2: UcpStream,
    out1: Seq<u8>,
    cap1: nat,
    out2: Seq<u8>,
    cap2: nat,
)
    requires
        recv_step(s0, s1, out1, cap1),
        recv_step(s1, s2, out2, cap2),
    ensures
        out1 + out2 == deliverable(s0.recv_queue@, s0.una).subrange(0, (out1.len() + out2.len()) as int),
        deliverable(s2.recv_queue@, s2.una) == deliverable(s0.recv_queue@, s0.una).subrange(
            (out1.len() + out2.len()) as int,
            deliverable(s0.recv_queue@, s0.una).len() as int,
        ),
{
    let d = deliverable(s0.recv_queue@, s0.una);
    assert(out1 + out2 =~= d.subrange(0, (out1.len() + out2.len()) as int));
    assert(deliverable(s2.recv_queue@, s2.una) =~= d.subrange((out1.len() + out2.len()) as int, d.len() as int));
}


/// What `do_heartbeat` does at time `now`.
pub open spec fn heartbeat_step(s: UcpStream, t: UcpStream, now: i64) -> bool {
    &&& (now - s.heartbeat >= HEARTBEAT_INTERVAL_MILLIS ==> {
            &&& t.datagrams() == s.datagrams().push(
                encode(noseq_header(s, now, CMD_HEARTBEAT), Seq::empty()),
            )
            &&& t == (UcpStream {
                outbox: t.outbox,
                heartbeat: now,
                ..s
            })
        })
    &&& (now - s.heartbeat < HEARTBEAT_INTERVAL_MILLIS ==> t == s)
}

/// What `send_ack_list` does at time `now`.
pub open spec fn ack_flush_step(s: UcpStream, t: UcpStream, now: i64) -> bool {
    &&& (t.ack_list@.len() == 0)
    &&& (s.ack_list@.len() == 0 ==> t == s)
    &&& (t.datagrams().len() >= s.datagrams().len())
    &&& (t.datagrams().subrange(0, s.datagrams().len() as int)
            == s.datagrams())
    &&& (payloads(
            t.datagrams().subrange(
                s.datagrams().len() as int,
                t.datagrams().len() as int,
            )
        ) == ack_bytes(s.ack_list@))
    &&& (forall|j: int|
            s.datagrams().len() <= j < t.datagrams().len() ==> #[trigger] t.datagrams()[j] == encode(
                noseq_header(s, now, CMD_ACK),
                payload_of(t.datagrams()[j]),
            ))
    &&& (s.ack_list@.len() > 0 ==> t.datagrams().len() > s.datagrams().len())
    &&& (forall|j: int|
            s.datagrams().len() <= j < t.datagrams().len() - 1 ==> payload_of(#[trigger] t.datagrams()[j]).len()
                == ACK_PAIRS_PER_PACKET * 8)
    &&& (t.datagrams().len() > s.datagrams().len() ==> payload_of(t.datagrams().last()).len() > 0)
    &&& (t == (UcpStream {
            outbox: t.outbox,
            ack_list: t.ack_list,
            ..s
        }))
}

/// What `timeout_resend` does at time `now`.
pub open spec fn resend_step(s: UcpStream, t: UcpStream, now: i64) -> bool {
    &&& (t.send_queue@.len() == s.send_queue@.len())
    &&& (forall|i: int|
            0 <= i < s.send_queue@.len() ==> if needs_resend(
                #[trigger] s.send_queue@[i],
                elapsed_ms(now, s.initial_time),
                s.rto,
            ) {
                refreshed(
                    s.send_queue@[i],
                    t.send_queue@[i],
                    s,
                    elapsed_ms(now, s.initial_time),
                )
            } else {
                t.send_queue@[i] == s.send_queue@[i]
            })
    &&& (t.datagrams() == s.datagrams() + resent(
            s.send_queue@,
            t.send_queue@,
            elapsed_ms(now, s.initial_time),
            s.rto,
            s.send_queue@.len() as int
        ))
    &&& (t == (UcpStream {
            outbox: t.outbox,
            send_queue: t.send_queue,
            ..s
        }))
}

/// What `send_pending_packets` does at time `now`.
pub open spec fn promote_step(s: UcpStream, t: UcpStream, now: i64) -> bool {
    &&& (t.send_queue@.len() >= s.send_queue@.len())
    &&& (t.send_queue@.subrange(0, s.send_queue@.len() as int)
            == s.send_queue@)
    &&& (t.send_queue@.len() - s.send_queue@.len() <= s.send_buffer@.len())
    &&& (t.send_buffer@ == s.send_buffer@.subrange(
            t.send_queue@.len() - s.send_queue@.len(),
            s.send_buffer@.len() as int
        ))
    &&& (forall|j: int|
            s.send_queue@.len() <= j < t.send_queue@.len() ==> {
                let p = s.send_buffer@[j - s.send_queue@.len()];
                &&& (#[trigger] t.send_queue@[j]).header_view() == (UcpHeader {
                    window: s.local_window,
                    una: s.una,
                    timestamp: elapsed_ms(now, s.initial_time),
                    ..p.header_view()
                })
                &&& t.send_queue@[j].payload_bytes() == p.payload_bytes()
                &&& t.send_queue@[j].bytes() == encode(
                    t.send_queue@[j].header_view(),
                    p.payload_bytes(),
                )
            })
    &&& (t.send_queue@.len() <= s.send_queue@.len() || t.send_queue@.len()
            <= s.remote_window)
    &&& (t.send_buffer@.len() == 0 || t.send_queue@.len()
            >= s.remote_window || (t.send_queue@.len() > 0 && wrap32(
            t.send_buffer@[0].seq - t.send_queue@[0].seq
        ) >= s.remote_window))
    &&& (t.datagrams() == s.datagrams() + packed(
            t.send_queue@.subrange(
                s.send_queue@.len() as int,
                t.send_queue@.len() as int,
            )
        ))
    &&& (t == (UcpStream {
            outbox: t.outbox,
            send_queue: t.send_queue,
            send_buffer: t.send_buffer,
            ..s
        }))
}

/// What one tick of a live stream does at time `now`: the heartbeat, the
/// acknowledgement flush, the retransmission pass and the window promotion, in
/// that order, each from the state the one before left.
pub open spec fn tick_step(s: UcpStream, t: UcpStream, now: i64) -> bool {
    exists|m1: UcpStream, m2: UcpStream, m3: UcpStream|
        #![trigger heartbeat_step(s, m1, now), ack_flush_step(m1, m2, now), resend_step(m2, m3, now)]
        heartbeat_step(s, m1, now) && ack_flush_step(m1, m2, now) && resend_step(m2, m3, now)
            && promote_step(m3, t, now)
}

/// The handshake transitions and the fate of `una` for a packet of the stream's
/// own session, once the stream has left NONE.
pub open spec fn handshake_step(s: UcpStream, t: UcpStream, p: UcpPacket) -> bool {
    p.session_id == s.session_id ==> {
        &&& s.state == UcpState::ACCEPTING ==> (t.state == UcpState::ESTABLISHED) == (p.cmd == CMD_ACK
            && p.payload == 8 && in_flight_pair(s.send_queue@, echoed_seq(p), echoed_timestamp(p)))
        &&& s.state == UcpState::CONNECTING ==> (t.state == UcpState::ESTABLISHED) == (p.cmd == CMD_SYN_ACK
            && p.payload == 8 && in_flight_pair(s.send_queue@, echoed_seq(p), echoed_timestamp(p)))
        &&& s.state == UcpState::CONNECTING && t.state == UcpState::ESTABLISHED ==> t.una == wrap32(p.seq + 1)
        &&& s.state == UcpState::CONNECTING && t.state == UcpState::CONNECTING ==> t.una == s.una
        &&& s.state == UcpState::ESTABLISHED && p.cmd != CMD_DATA ==> t.una == s.una
    }
}

/// What `process_packet` does with a parsed packet at time `now`.
pub open spec fn packet_step(s: UcpStream, t: UcpStream, packet: UcpPacket, now: i64) -> bool {
    &&& (state_advances(s.state, t.state))
    &&& (s.state == UcpState::NONE && packet.cmd != CMD_SYN ==> t == s)
    &&& (s.state == UcpState::NONE && packet.cmd == CMD_SYN ==> {
            &&& t.state == UcpState::ACCEPTING
            &&& t.session_id == packet.session_id
            &&& t.una == wrap32(packet.seq + 1)
            &&& t.remote_window == packet.window
        })
    &&& (s.state != UcpState::NONE && packet.session_id != s.session_id
            ==> t == s)
    &&& (s.state != UcpState::NONE ==> t.session_id == s.session_id)
    &&& (s.state != UcpState::NONE && packet.session_id == s.session_id ==> {
            &&& t.remote_window == packet.window
            &&& t.alive_time == now
        })
    &&& (s.state == UcpState::ESTABLISHED ==> una_forward(
            s.una,
            t.una,
            t.recv_queue@.len(),
        ))
    &&& (s.state == UcpState::ACCEPTING ==> t.una == s.una)
    &&& (s.state == UcpState::ESTABLISHED && packet.cmd == CMD_DATA && packet.session_id
            == s.session_id ==> established_data_step(s, t, packet, now))
    &&& (s.state != UcpState::NONE ==> handshake_step(s, t, packet))
}

/// What `update` does at time `now`, returning `r`.
pub open spec fn update_step(s: UcpStream, t: UcpStream, now: i64, r: bool) -> bool {
    &&& (r == (now - s.alive_time < UCP_STREAM_BROKEN_MILLIS))
    &&& (!r ==> t == s)
    &&& (r ==> tick_step(s, t, now))
    &&& (r ==> {
            &&& t.ack_list@.len() == 0
            &&& t.recv_queue == s.recv_queue
            &&& t.una == s.una
            &&& t.state == s.state
            &&& t.seq == s.seq
            &&& t.session_id == s.session_id
            &&& t.alive_time == s.alive_time
            &&& t.rto == s.rto
            &&& t.heartbeat == if now - s.heartbeat >= HEARTBEAT_INTERVAL_MILLIS {
                now
            } else {
                s.heartbeat
            }
            &&& t.datagrams().len() >= s.datagrams().len()
            &&& t.datagrams().subrange(0, s.datagrams().len() as int)
                == s.datagrams()
        })
}

/// `q1` is `q0` after reading from its front: some fully read packets left the
/// front, and the new front may have its read cursor moved on.
pub open spec fn drained_from(q0: Seq<UcpPacket>, q1: Seq<UcpPacket>) -> bool {
    let k = q0.len() - q1.len();
    &&& q1.len() <= q0.len()
    &&& forall|j: int| 1 <= j < q1.len() ==> #[trigger] q1[j] == q0[k + j]
    &&& q1.len() > 0 ==> {
        &&& q1[0] == (UcpPacket { read_pos: q1[0].read_pos, ..q0[k] })
        &&& q1[0].read_pos >= q0[k].read_pos
    }
}

/// `p` is the `i`-th new DATA packet that stream `s` cuts at time `now`: it
/// carries the stream's header values, the `i + 1`-th next sequence number, and
/// a payload that is not empty.
pub open spec fn new_data_packet(p: UcpPacket, s: UcpStream, now: i64, i: int) -> bool {
    &&& p.wf()
    &&& p.header_view() == (UcpHeader {
        session_id: s.session_id,
        timestamp: elapsed_ms(now, s.initial_time),
        window: s.local_window,
        xmit: 0,
        una: s.una,
        seq: wrap32(s.seq + i + 1),
        cmd: CMD_DATA,
    })
    &&& p.payload_bytes().len() > 0
    &&& p.skip_times == 0
}

/// `s` is a stream as `UcpStream::new(now)` makes it.
pub open spec fn initial_stream(s: UcpStream, now: i64) -> bool {
    &&& s.wf()
    &&& s.state == UcpState::NONE
    &&& s.initial_time == now
    &&& s.alive_time == now
    &&& s.heartbeat == now
    &&& s.send_queue@.len() == 0
    &&& s.recv_queue@.len() == 0
    &&& s.send_buffer@.len() == 0
    &&& s.ack_list@.len() == 0
    &&& s.outbox@.len() == 0
    &&& s.session_id == 0
    &&& s.local_window == crate::stream::DEFAULT_WINDOW
    &&& s.remote_window == crate::stream::DEFAULT_WINDOW
    &&& s.seq == 0
    &&& s.una == 0
    &&& s.rto == crate::stream::DEFAULT_RTO
}

} // verus!
