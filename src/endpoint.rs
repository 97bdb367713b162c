//! The endpoint multiplexer: one stream per remote address, created when an
//! unknown peer sends a SYN, ticked at most every `UPDATE_INTERVAL_MILLIS`, and
//! dropped when its peer falls silent. The socket itself stays with the caller,
//! which hands in each datagram and sends what the streams put in their outboxes.

use vstd::prelude::*;
use crate::packet::{UcpPacket, is_accepted_frame, decode_header, UCP_MTU, CMD_SYN};
use crate::stream::{UcpStream, UcpState, UCP_STREAM_BROKEN_MILLIS};
use crate::model::{packet_step, update_step, initial_stream};
use crate::seqnum::wrap32;

verus! {

/// Least time between two ticks of the streams.
pub const UPDATE_INTERVAL_MILLIS: i64 = 10;

/// An IPv4 address and port.
#[derive(Clone, Copy, Debug, PartialEq, Eq, Structural, Hash)]
pub struct PeerAddr {
    pub ip: u32,
    pub port: u16,
}

/// What became of an incoming datagram.
#[derive(Clone, Copy, Debug, PartialEq, Eq, Structural)]
pub enum Incoming {
    /// Too long, too short, a bad CRC or an unknown command: dropped.
    Illegal,
    /// Handed to the stream of its address.
    Delivered,
    /// A SYN from a new address: a stream was created for it.
    Accepted,
    /// From an unknown address and not a SYN: dropped.
    Unknown,
}

/// `p` is what parsing the datagram `data` gives.
pub open spec fn parsed_from(p: UcpPacket, data: Seq<u8>) -> bool {
    &&& p.wf()
    &&& p.bytes() == data
    &&& p.header_view() == decode_header(data)
    &&& p.size == crate::packet::UCP_PACKET_META_SIZE + p.payload
    &&& p.read_pos == crate::packet::UCP_PACKET_META_SIZE
}

/// Parses a received datagram; `None` when parsing rejects it.
pub fn parse_datagram(data: &[u8]) -> (r: Option<UcpPacket>)
    ensures
        r is None <==> (data@.len() > UCP_MTU || !is_accepted_frame(data@)),
        r matches Some(p) ==> parsed_from(p, data@),
{
    if data.len() > UCP_MTU {
        return None;
    }
    let mut packet = UcpPacket::from_datagram(data);
    if packet.parse() {
        Some(packet)
    } else {
        None
    }
}

/// `e` is a stream of `s` after a tick that found its peer alive.
pub open spec fn ticked_from(s: Seq<(PeerAddr, UcpStream)>, e: (PeerAddr, UcpStream), now: i64) -> bool {
    exists|m: int| 0 <= m < s.len() && s[m].0 == e.0 && #[trigger] update_step(s[m].1, e.1, now, true)
}

pub struct UcpServer {
    pub streams: Vec<(PeerAddr, UcpStream)>,
    pub update_time: i64,
}

/// The addresses of the streams.
pub open spec fn addrs(s: Seq<(PeerAddr, UcpStream)>) -> Seq<PeerAddr> {
    s.map_values(|e: (PeerAddr, UcpStream)| e.0)
}

impl UcpServer {
    pub open spec fn wf(&self) -> bool {
        &&& forall|i: int| 0 <= i < self.streams@.len() ==> (#[trigger] self.streams@[i]).1.wf()
        &&& addrs(self.streams@).no_duplicates()
    }

    pub fn new(now: i64) -> (r: UcpServer)
        ensures
            r.wf(),
            r.streams@.len() == 0,
            r.update_time == now,
    {
        let r = UcpServer { streams: Vec::new(), update_time: now };
        assert(addrs(r.streams@) =~= Seq::<PeerAddr>::empty());
        r
    }

    /// The position of the stream for `addr`.
    pub fn find(&self, addr: PeerAddr) -> (r: Option<usize>)
        ensures
            r is None <==> !addrs(self.streams@).contains(addr),
            r matches Some(i) ==> i < self.streams@.len() && self.streams@[i as int].0 == addr,
    {
        let n = self.streams.len();
        let mut i: usize = 0;
        while i < n
            invariant
                n == self.streams@.len(),
                i <= n,
                forall|j: int| 0 <= j < i ==> (#[trigger] self.streams@[j]).0 != addr,
            decreases n - i,
        {
            if self.streams[i].0 == addr {
                assert(addrs(self.streams@)[i as int] == addr);
                return Some(i);
            }
            i = i + 1;
        }
        proof {
            if addrs(self.streams@).contains(addr) {
                let k = choose|k: int| 0 <= k < addrs(self.streams@).len() && addrs(self.streams@)[k] == addr;
                assert(self.streams@[k].0 == addr);
            }
        }
        None
    }

    /// Hands a parsed packet to the stream at position `i`.
    pub fn deliver(&mut self, i: usize, packet: UcpPacket, now: i64)
        requires
            old(self).wf(),
            i < old(self).streams@.len(),
            crate::model::is_fresh(packet),
        ensures
            final(self).wf(),
            addrs(final(self).streams@) == addrs(old(self).streams@),
            final(self).update_time == old(self).update_time,
            final(self).streams@.len() == old(self).streams@.len(),
            forall|j: int|
                0 <= j < old(self).streams@.len() && j != i ==> #[trigger] final(self).streams@[j]
                    == old(self).streams@[j],
            final(self).streams@[i as int].0 == old(self).streams@[i as int].0,
            packet_step(old(self).streams@[i as int].1, final(self).streams@[i as int].1, packet, now),
    {
        let ghost s0 = self.streams@;
        let (addr, mut ucp) = self.streams.remove(i);
        ucp.process_packet(packet, now);
        self.streams.insert(i, (addr, ucp));
        proof {
            assert(self.streams@ =~= s0.update(i as int, (addr, ucp)));
            assert(addrs(self.streams@) =~= addrs(s0));
            assert forall|j: int| 0 <= j < self.streams@.len() implies (#[trigger] self.streams@[j]).1.wf() by {
                if j != i {
                    assert(self.streams@[j] == s0[j]);
                }
            }
        }
    }

    /// Opens a stream for a SYN from a new address.
    pub fn new_ucp_stream(&mut self, remote: PeerAddr, packet: UcpPacket, now: i64)
        requires
            old(self).wf(),
            !addrs(old(self).streams@).contains(remote),
            crate::model::is_fresh(packet),
            packet.cmd == CMD_SYN,
        ensures
            final(self).wf(),
            addrs(final(self).streams@) == addrs(old(self).streams@).push(remote),
            final(self).streams@.last().1.state == UcpState::ACCEPTING,
            final(self).streams@.last().1.session_id == packet.session_id,
            final(self).update_time == old(self).update_time,
            final(self).streams@.len() == old(self).streams@.len() + 1,
            final(self).streams@.subrange(0, old(self).streams@.len() as int) == old(self).streams@,
            exists|s0: UcpStream| initial_stream(s0, now) && #[trigger] packet_step(s0, final(self).streams@.last().1, packet, now),
    {
        let mut ucp = UcpStream::new(now);
        let ghost fresh = ucp;
        ucp.process_packet(packet, now);
        assert(initial_stream(fresh, now) && packet_step(fresh, ucp, packet, now));
        let ghost s0 = self.streams@;
        self.streams.push((remote, ucp));
        proof {
            assert(addrs(self.streams@) =~= addrs(s0).push(remote));
            assert(self.streams@.subrange(0, s0.len() as int) =~= s0);
            assert forall|j: int| 0 <= j < self.streams@.len() implies (#[trigger] self.streams@[j]).1.wf() by {
                if j < s0.len() {
                    assert(self.streams@[j] == s0[j]);
                }
            }
            assert forall|a: int, b: int| 0 <= a < b < addrs(self.streams@).len() implies addrs(self.streams@)[a] != addrs(self.streams@)[b] by {
                if b == s0.len() {
                    assert(addrs(s0)[a] == addrs(self.streams@)[a]);
                }
            }
        }
    }

    /// Drops the stream of `addr`, if there is one; returns whether there was.
    #[verifier::rlimit(100)]
    pub fn close(&mut self, addr: PeerAddr) -> (r: bool)
        requires
            old(self).wf(),
        ensures
            final(self).wf(),
            r == addrs(old(self).streams@).contains(addr),
            !addrs(final(self).streams@).contains(addr),
            forall|a: PeerAddr| a != addr ==> (addrs(final(self).streams@).contains(a) <==> addrs(old(self).streams@).contains(a)),
            final(self).update_time == old(self).update_time,
    {
        match self.find(addr) {
            None => false,
            Some(i) => {
                let ghost s0 = self.streams@;
                self.streams.remove(i);
                proof {
                    let a0 = addrs(s0);
                    assert(addrs(self.streams@) =~= a0.remove(i as int));
                    assert forall|j: int| 0 <= j < self.streams@.len() implies (#[trigger] self.streams@[j]).1.wf() by {
                        if j < i {
                            assert(self.streams@[j] == s0[j]);
                        } else {
                            assert(self.streams@[j] == s0[j + 1]);
                        }
                    }
                    assert forall|x: int, y: int| 0 <= x < y < addrs(self.streams@).len() implies addrs(self.streams@)[x] != addrs(self.streams@)[y] by {
                        let xx = if x < i { x } else { x + 1 };
                        let yy = if y < i { y } else { y + 1 };
                        assert(addrs(self.streams@)[x] == a0[xx]);
                        assert(addrs(self.streams@)[y] == a0[yy]);
                    }
                    assert(a0[i as int] == addr);
                    if addrs(self.streams@).contains(addr) {
                        let k = choose|k: int| 0 <= k < addrs(self.streams@).len() && addrs(self.streams@)[k] == addr;
                        let kk = if k < i { k } else { k + 1 };
                        assert(a0[kk] == addr);
                    }
                    assert forall|a: PeerAddr| a != addr implies (addrs(self.streams@).contains(a) <==> a0.contains(a)) by {
                        if a0.contains(a) {
                            let k = choose|k: int| 0 <= k < a0.len() && a0[k] == a;
                            assert(k != i);
                            let kk = if k < i { k } else { k - 1 };
                            assert(addrs(self.streams@)[kk] == a);
                        }
                        if addrs(self.streams@).contains(a) {
                            let k = choose|k: int| 0 <= k < addrs(self.streams@).len() && addrs(self.streams@)[k] == a;
                            let kk = if k < i { k } else { k + 1 };
                            assert(a0[kk] == a);
                        }
                    }
                }
                true
            },
        }
    }

    /// Handles one received datagram: parses it, hands it to the stream of its
    /// address, or opens a stream for a SYN from a new address.
    pub fn process_packet(&mut self, data: &[u8], remote: PeerAddr, now: i64) -> (r: Incoming)
        requires
            old(self).wf(),
        ensures
            final(self).wf(),
            final(self).update_time == old(self).update_time,
            (r == Incoming::Illegal) <==> (data@.len() > UCP_MTU || !is_accepted_frame(data@)),
            r == Incoming::Illegal || r == Incoming::Unknown ==> final(self).streams == old(self).streams,
            r == Incoming::Delivered <==> (r != Incoming::Illegal && addrs(old(self).streams@).contains(remote)),
            r == Incoming::Delivered ==> addrs(final(self).streams@) == addrs(old(self).streams@),
            r == Incoming::Delivered ==> exists|i: int, p: UcpPacket|
                #![trigger packet_step(old(self).streams@[i].1, final(self).streams@[i].1, p, now)]
                0 <= i < old(self).streams@.len() && old(self).streams@[i].0 == remote && parsed_from(p, data@)
                    && packet_step(old(self).streams@[i].1, final(self).streams@[i].1, p, now)
                    && final(self).streams@.len() == old(self).streams@.len()
                    && forall|j: int|
                    0 <= j < old(self).streams@.len() && j != i ==> #[trigger] final(self).streams@[j]
                        == old(self).streams@[j],
            r == Incoming::Accepted ==> final(self).streams@.subrange(0, old(self).streams@.len() as int)
                == old(self).streams@,
            r == Incoming::Accepted ==> exists|s0: UcpStream, p: UcpPacket|
                initial_stream(s0, now) && parsed_from(p, data@) && #[trigger] packet_step(s0, final(self).streams@.last().1, p, now),
            r == Incoming::Accepted <==> (r != Incoming::Illegal && !addrs(old(self).streams@).contains(remote)
                && decode_header(data@).cmd == CMD_SYN),
            r == Incoming::Accepted ==> {
                &&& addrs(final(self).streams@) == addrs(old(self).streams@).push(remote)
                &&& final(self).streams@.last().1.state == UcpState::ACCEPTING
                &&& final(self).streams@.last().1.session_id == decode_header(data@).session_id
            },
    {
        let packet = match parse_datagram(data) {
            Some(p) => p,
            None => {
                return Incoming::Illegal;
            },
        };
        match self.find(remote) {
            Some(i) => {
                self.deliver(i, packet, now);
                assert(packet_step(old(self).streams@[i as int].1, self.streams@[i as int].1, packet, now));
                Incoming::Delivered
            },
            None => {
                if packet.is_syn() {
                    self.new_ucp_stream(remote, packet, now);
                    proof {
                        let s0 = choose|s0: UcpStream| initial_stream(s0, now) && #[trigger] packet_step(s0, self.streams@.last().1, packet, now);
                        assert(initial_stream(s0, now) && parsed_from(packet, data@) && packet_step(s0, self.streams@.last().1, packet, now));
                    }
                    Incoming::Accepted
                } else {
                    Incoming::Unknown
                }
            },
        }
    }

    /// Ticks every stream; `r[i]` tells whether stream `i` is still alive.
    pub fn tick_all(&mut self, now: i64) -> (r: Vec<bool>)
        requires
            old(self).wf(),
        ensures
            final(self).wf(),
            addrs(final(self).streams@) == addrs(old(self).streams@),
            r@.len() == old(self).streams@.len(),
            forall|k: int| 0 <= k < r@.len() ==> #[trigger] r@[k] == (now - old(self).streams@[k].1.alive_time
                < UCP_STREAM_BROKEN_MILLIS),
            forall|k: int|
                0 <= k < r@.len() ==> update_step(old(self).streams@[k].1, #[trigger] final(self).streams@[k].1, now, r@[k]),
            final(self).streams@.len() == old(self).streams@.len(),
            forall|k: int| 0 <= k < r@.len() ==> (#[trigger] final(self).streams@[k]).0 == old(self).streams@[k].0,
            final(self).update_time == old(self).update_time,
    {
        let n = self.streams.len();
        let mut alive: Vec<bool> = Vec::new();
        let mut i: usize = 0;
        while i < n
            invariant
                self.wf(),
                n == self.streams@.len(),
                addrs(self.streams@) == addrs(old(self).streams@),
                self.update_time == old(self).update_time,
                i <= n,
                alive@.len() == i,
                forall|k: int| i <= k < n ==> #[trigger] self.streams@[k] == old(self).streams@[k],
                forall|k: int| 0 <= k < i ==> #[trigger] alive@[k] == (now - old(self).streams@[k].1.alive_time
                    < UCP_STREAM_BROKEN_MILLIS),
                forall|k: int|
                    0 <= k < i ==> update_step(old(self).streams@[k].1, #[trigger] self.streams@[k].1, now, alive@[k]),
                forall|k: int| 0 <= k < n ==> (#[trigger] self.streams@[k]).0 == old(self).streams@[k].0,
            decreases n - i,
        {
            let ghost s0 = self.streams@;
            let (addr, mut ucp) = self.streams.remove(i);
            let ok = ucp.update(now);
            self.streams.insert(i, (addr, ucp));
            alive.push(ok);
            proof {
                assert(self.streams@ =~= s0.update(i as int, (addr, ucp)));
                assert(addrs(self.streams@) =~= addrs(s0));
                assert forall|j: int| 0 <= j < self.streams@.len() implies (#[trigger] self.streams@[j]).1.wf() by {
                    if j != i {
                        assert(self.streams@[j] == s0[j]);
                    }
                }
            }
            i = i + 1;
        }
        alive
    }

    /// One tick, at most every `UPDATE_INTERVAL_MILLIS`: ticks every stream and
    /// removes those whose peer fell silent. Returns their addresses.
    #[verifier::rlimit(100)]
    pub fn update(&mut self, now: i64) -> (r: Vec<PeerAddr>)
        requires
            old(self).wf(),
        ensures
            final(self).wf(),
            now - old(self).update_time < UPDATE_INTERVAL_MILLIS ==> *final(self) == *old(self) && r@.len() == 0,
            now - old(self).update_time >= UPDATE_INTERVAL_MILLIS ==> {
                &&& final(self).update_time == now
                &&& forall|i: int| 0 <= i < old(self).streams@.len() ==> {
                    let e = #[trigger] old(self).streams@[i];
                    if now - e.1.alive_time < UCP_STREAM_BROKEN_MILLIS {
                        addrs(final(self).streams@).contains(e.0) && !r@.contains(e.0)
                    } else {
                        !addrs(final(self).streams@).contains(e.0) && r@.contains(e.0)
                    }
                }
                &&& forall|a: PeerAddr| addrs(final(self).streams@).contains(a) ==> addrs(old(self).streams@).contains(a)
                &&& forall|k: int|
                    0 <= k < final(self).streams@.len() ==> ticked_from(old(self).streams@, #[trigger] final(self).streams@[k], now)
            },
    {
        if (now as i128 - self.update_time as i128) < UPDATE_INTERVAL_MILLIS as i128 {
            return Vec::new();
        }
        let alive = self.tick_all(now);
        let ghost a0 = addrs(old(self).streams@);
        let n = self.streams.len();
        let mut kept: Vec<(PeerAddr, UcpStream)> = Vec::new();
        let mut broken: Vec<PeerAddr> = Vec::new();
        let mut streams: Vec<(PeerAddr, UcpStream)> = Vec::new();
        std::mem::swap(&mut streams, &mut self.streams);
        let ghost s1 = streams@;
        assert(addrs(s1) == a0);
        let mut j: usize = 0;
        let ghost mut idx: Seq<int> = Seq::empty();
        while j < n
            invariant
                n == s1.len(),
                alive@.len() == n,
                a0 == addrs(s1),
                a0 == addrs(old(self).streams@),
                a0.no_duplicates(),
                forall|k: int| 0 <= k < n ==> (#[trigger] s1[k]).1.wf(),
                forall|k: int| 0 <= k < n ==> #[trigger] alive@[k] == (now - old(self).streams@[k].1.alive_time
                    < UCP_STREAM_BROKEN_MILLIS),
                j <= n,
                streams@.len() == n - j,
                forall|k: int| 0 <= k < n - j ==> #[trigger] streams@[k] == s1[k + j],
                forall|k: int| 0 <= k < kept@.len() ==> (#[trigger] kept@[k]).1.wf(),
                addrs(kept@).no_duplicates(),
                forall|a: PeerAddr| #[trigger] addrs(kept@).contains(a) ==> exists|m: int| 0 <= m < j && alive@[m] && a0[m] == a,
                forall|m: int| 0 <= m < n ==> update_step(old(self).streams@[m].1, (#[trigger] s1[m]).1, now, alive@[m]),
                idx.len() == kept@.len(),
                forall|k: int|
                    0 <= k < kept@.len() ==> 0 <= #[trigger] idx[k] < j && alive@[idx[k]] && kept@[k] == s1[idx[k]],
                forall|a: PeerAddr| #[trigger] broken@.contains(a) ==> exists|m: int| 0 <= m < j && !alive@[m] && a0[m] == a,
                forall|m: int| 0 <= m < j ==> if #[trigger] alive@[m] {
                    addrs(kept@).contains(a0[m])
                } else {
                    broken@.contains(a0[m])
                },
            decreases n - j,
        {
            let e = streams.remove(0);
            assert(e == s1[j as int]);
            let ghost kept0 = kept@;
            let ghost broken0 = broken@;
            if alive[j] {
                proof {
                    if addrs(kept0).contains(e.0) {
                        let m = choose|m: int| 0 <= m < j && alive@[m] && a0[m] == e.0;
                        assert(a0[j as int] == e.0);
                    }
                }
                kept.push(e);
                proof {
                    idx = idx.push(j as int);
                    assert(kept@[kept0.len() as int] == s1[j as int]);
                    assert forall|k: int| 0 <= k < kept0.len() implies kept@[k] == kept0[k] by {}
                    assert(addrs(kept@) =~= addrs(kept0).push(e.0));
                    assert forall|a: int, b: int| 0 <= a < b < addrs(kept@).len() implies addrs(kept@)[a] != addrs(kept@)[b] by {
                        if b == kept0.len() {
                            assert(addrs(kept0)[a] == addrs(kept@)[a]);
                            assert(addrs(kept0).contains(addrs(kept@)[a]));
                        }
                    }
                    assert forall|a: PeerAddr| #[trigger] addrs(kept@).contains(a) implies exists|m: int| 0 <= m < j + 1 && alive@[m] && a0[m] == a by {
                        if a != e.0 {
                            let k = choose|k: int| 0 <= k < addrs(kept@).len() && addrs(kept@)[k] == a;
                            assert(addrs(kept0)[k] == a);
                            assert(addrs(kept0).contains(a));
                        } else {
                            assert(a0[j as int] == a);
                        }
                    }
                    assert forall|m: int| 0 <= m < j + 1 && #[trigger] alive@[m] implies addrs(kept@).contains(a0[m]) by {
                        if m < j {
                            let k = choose|k: int| 0 <= k < addrs(kept0).len() && addrs(kept0)[k] == a0[m];
                            assert(addrs(kept@)[k] == a0[m]);
                        } else {
                            assert(addrs(kept@)[kept0.len() as int] == a0[m]);
                        }
                    }
                }
            } else {
                broken.push(e.0);
                proof {
                    assert forall|a: PeerAddr| #[trigger] broken@.contains(a) implies exists|m: int| 0 <= m < j + 1 && !alive@[m] && a0[m] == a by {
                        if a != e.0 {
                            let k = choose|k: int| 0 <= k < broken@.len() && broken@[k] == a;
                            assert(broken0[k] == a);
                            assert(broken0.contains(a));
                        } else {
                            assert(a0[j as int] == a);
                        }
                    }
                    assert forall|m: int| 0 <= m < j + 1 && !#[trigger] alive@[m] implies broken@.contains(a0[m]) by {
                        if m < j {
                            let k = choose|k: int| 0 <= k < broken0.len() && broken0[k] == a0[m];
                            assert(broken@[k] == a0[m]);
                        } else {
                            assert(broken@[broken0.len() as int] == a0[m]);
                        }
                    }
                }
            }
            proof {
                assert forall|k: int| 0 <= k < n - (j + 1) implies #[trigger] streams@[k] == s1[k + j + 1] by {}
            }
            j = j + 1;
        }
        self.streams = kept;
        self.update_time = now;
        proof {
            assert forall|i: int| 0 <= i < old(self).streams@.len() implies {
                let e = #[trigger] old(self).streams@[i];
                if now - e.1.alive_time < UCP_STREAM_BROKEN_MILLIS {
                    addrs(self.streams@).contains(e.0) && !broken@.contains(e.0)
                } else {
                    !addrs(self.streams@).contains(e.0) && broken@.contains(e.0)
                }
            } by {
                assert(a0[i] == old(self).streams@[i].0);
                assert(alive@[i] == (now - old(self).streams@[i].1.alive_time < UCP_STREAM_BROKEN_MILLIS));
                if alive@[i] {
                    if broken@.contains(a0[i]) {
                        let m = choose|m: int| 0 <= m < n && !alive@[m] && a0[m] == a0[i];
                    }
                } else {
                    if addrs(self.streams@).contains(a0[i]) {
                        let m = choose|m: int| 0 <= m < n && alive@[m] && a0[m] == a0[i];
                    }
                }
            }
            assert forall|k: int| 0 <= k < self.streams@.len() implies ticked_from(old(self).streams@, #[trigger] self.streams@[k], now) by {
                let m = idx[k];
                assert(a0[m] == s1[m].0);
                assert(a0[m] == old(self).streams@[m].0);
                assert(update_step(old(self).streams@[m].1, s1[m].1, now, alive@[m]));
                assert(self.streams@[k] == s1[m]);
                assert(0 <= m < old(self).streams@.len() && old(self).streams@[m].0 == self.streams@[k].0
                    && update_step(old(self).streams@[m].1, self.streams@[k].1, now, true));
            }
            assert forall|a: PeerAddr| addrs(self.streams@).contains(a) implies addrs(old(self).streams@).contains(a) by {
                if addrs(self.streams@).contains(a) {
                    let m = choose|m: int| 0 <= m < n && alive@[m] && a0[m] == a;
                }
            }
        }
        broken
    }
}

/// The initiating side: one stream to one server.
pub struct UcpClient {
    pub ucp: UcpStream,
    pub update_time: i64,
}

impl UcpClient {
    pub open spec fn wf(&self) -> bool {
        self.ucp.wf()
    }

    /// A client whose stream has queued its SYN.
    pub fn new(now: i64) -> (r: UcpClient)
        ensures
            r.wf(),
            r.update_time == now,
            r.ucp.state == UcpState::CONNECTING,
            r.ucp.session_id != 0,
            r.ucp.seq == 1,
            r.ucp.send_buffer@.len() == 1,
            r.ucp.send_buffer@[0].cmd == CMD_SYN,
            r.ucp.send_buffer@[0].seq == 1,
    {
        let mut ucp = UcpStream::new(now);
        ucp.connect(now);
        assert(wrap32(0int + 1) == 1) by {
            vstd::arithmetic::div_mod::lemma_small_mod(1, 0x1_0000_0000);
        }
        UcpClient { ucp, update_time: now }
    }

    /// Hands a received datagram to the stream; false when parsing rejects it.
    pub fn process_packet(&mut self, data: &[u8], now: i64) -> (r: bool)
        requires
            old(self).wf(),
        ensures
            final(self).wf(),
            r == !(data@.len() > UCP_MTU || !is_accepted_frame(data@)),
            !r ==> *final(self) == *old(self),
            r ==> exists|p: UcpPacket|
                parsed_from(p, data@) && #[trigger] packet_step(old(self).ucp, final(self).ucp, p, now),
            final(self).update_time == old(self).update_time,
    {
        match parse_datagram(data) {
            Some(packet) => {
                self.ucp.process_packet(packet, now);
                true
            },
            None => false,
        }
    }

    /// One tick, at most every `UPDATE_INTERVAL_MILLIS`; false once the server
    /// fell silent.
    pub fn update(&mut self, now: i64) -> (r: bool)
        requires
            old(self).wf(),
        ensures
            final(self).wf(),
            now - old(self).update_time < UPDATE_INTERVAL_MILLIS ==> r && *final(self) == *old(self),
            now - old(self).update_time >= UPDATE_INTERVAL_MILLIS ==> {
                &&& final(self).update_time == now
                &&& r == (now - old(self).ucp.alive_time < UCP_STREAM_BROKEN_MILLIS)
                &&& update_step(old(self).ucp, final(self).ucp, now, r)
            },
    {
        if (now as i128 - self.update_time as i128) < UPDATE_INTERVAL_MILLIS as i128 {
            return true;
        }
        self.update_time = now;
        self.ucp.update(now)
    }
}

} // verus!
