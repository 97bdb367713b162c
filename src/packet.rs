//! Wire format of a datagram: a 29-byte big-endian header behind a CRC-32,
//! followed by the payload, in a fixed buffer of `UCP_MTU` bytes.

use vstd::prelude::*;

verus! {

pub const UCP_MTU: usize = 1400;
pub const UCP_PACKET_META_SIZE: usize = 29;
/// Largest payload a single packet can carry.
pub const UCP_MAX_PAYLOAD: usize = 1371;

pub const CMD_SYN: u8 = 128;
pub const CMD_SYN_ACK: u8 = 129;
pub const CMD_ACK: u8 = 130;
pub const CMD_DATA: u8 = 131;
pub const CMD_HEARTBEAT: u8 = 132;
pub const CMD_HEARTBEAT_ACK: u8 = 133;

/// The IEEE CRC-32 of a byte sequence.
pub uninterp spec fn crc32_ieee(bytes: Seq<u8>) -> u32;

/// Relies on crc::crc32::checksum_ieee: the IEEE CRC-32 of the bytes, a function of
/// the bytes alone.
#[verifier::external_body]
fn checksum_ieee(bytes: &[u8]) -> (r: u32)
    ensures
        r == crc32_ieee(bytes@),
{
    crc::crc32::checksum_ieee(bytes)
}

/// Big-endian encoding of a 32-bit word.
pub open spec fn be32(x: u32) -> Seq<u8> {
    seq![(x >> 24u32) as u8, (x >> 16u32) as u8, (x >> 8u32) as u8, x as u8]
}

/// The big-endian 32-bit word at offset `i` of `b`.
pub open spec fn read_be32(b: Seq<u8>, i: int) -> u32 {
    ((b[i] as u32) << 24u32) | ((b[i + 1] as u32) << 16u32) | ((b[i + 2] as u32) << 8u32) | (
    b[i + 3] as u32)
}

pub proof fn lemma_be32_round_trip(x: u32)
    ensures
        read_be32(be32(x), 0) == x,
{
    let b = be32(x);
    assert(((((x >> 24u32) as u8) as u32) << 24u32) | ((((x >> 16u32) as u8) as u32) << 16u32)
        | ((((x >> 8u32) as u8) as u32) << 8u32) | ((x as u8) as u32) == x) by (bit_vector);
}

/// The header fields of a packet.
#[derive(Clone, Copy, Debug, PartialEq, Eq, Structural)]
pub struct UcpHeader {
    pub session_id: u32,
    pub timestamp: u32,
    pub window: u32,
    pub xmit: u32,
    pub una: u32,
    pub seq: u32,
    pub cmd: u8,
}

pub open spec fn is_valid_cmd(cmd: u8) -> bool {
    CMD_SYN <= cmd <= CMD_HEARTBEAT_ACK
}

/// The 25 header bytes that follow the CRC.
pub open spec fn header_bytes(h: UcpHeader) -> Seq<u8> {
    be32(h.session_id) + be32(h.timestamp) + be32(h.window) + be32(h.xmit) + be32(h.una) + be32(
        h.seq,
    ) + seq![h.cmd]
}

/// The datagram that carries header `h` and `payload`.
pub open spec fn encode(h: UcpHeader, payload: Seq<u8>) -> Seq<u8> {
    let body = header_bytes(h) + payload;
    be32(crc32_ieee(body)) + body
}

/// The header read from the first 29 bytes of a datagram.
pub open spec fn decode_header(b: Seq<u8>) -> UcpHeader {
    UcpHeader {
        session_id: read_be32(b, 4),
        timestamp: read_be32(b, 8),
        window: read_be32(b, 12),
        xmit: read_be32(b, 16),
        una: read_be32(b, 20),
        seq: read_be32(b, 24),
        cmd: b[28],
    }
}

/// A datagram long enough for a header, whose CRC matches the bytes after it.
pub open spec fn is_legal_frame(b: Seq<u8>) -> bool {
    b.len() >= UCP_PACKET_META_SIZE && read_be32(b, 0) == crc32_ieee(b.subrange(4, b.len() as int))
}

/// A datagram that parsing accepts.
pub open spec fn is_accepted_frame(b: Seq<u8>) -> bool {
    is_legal_frame(b) && is_valid_cmd(b[28])
}


proof fn lemma_read_at(b: Seq<u8>, i: int, x: u32)
    requires
        0 <= i,
        i + 4 <= b.len(),
        b.subrange(i, i + 4) == be32(x),
    ensures
        read_be32(b, i) == x,
{
    lemma_be32_round_trip(x);
    let w = be32(x);
    assert(b[i] == w[0] && b[i + 1] == w[1] && b[i + 2] == w[2] && b[i + 3] == w[3]) by {
        assert(b.subrange(i, i + 4)[0] == b[i]);
        assert(b.subrange(i, i + 4)[1] == b[i + 1]);
        assert(b.subrange(i, i + 4)[2] == b[i + 2]);
        assert(b.subrange(i, i + 4)[3] == b[i + 3]);
    }
}

/// Packing then parsing gives back the header and the payload: a datagram built
/// from a header with a valid command and a payload that fits is accepted, and
/// decodes to that same header and payload.
pub proof fn lemma_frame_round_trip(h: UcpHeader, payload: Seq<u8>)
    requires
        is_valid_cmd(h.cmd),
        payload.len() <= UCP_MAX_PAYLOAD,
    ensures
        is_accepted_frame(encode(h, payload)),
        decode_header(encode(h, payload)) == h,
        encode(h, payload).subrange(UCP_PACKET_META_SIZE as int, encode(h, payload).len() as int)
            == payload,
{
    let body = header_bytes(h) + payload;
    let b = encode(h, payload);
    assert(b.len() == 29 + payload.len());
    assert(b.subrange(0, 4) =~= be32(crc32_ieee(body)));
    assert(b.subrange(4, b.len() as int) =~= body);
    lemma_read_at(b, 0, crc32_ieee(body));
    assert(b.subrange(4, 8) =~= be32(h.session_id));
    lemma_read_at(b, 4, h.session_id);
    assert(b.subrange(8, 12) =~= be32(h.timestamp));
    lemma_read_at(b, 8, h.timestamp);
    assert(b.subrange(12, 16) =~= be32(h.window));
    lemma_read_at(b, 12, h.window);
    assert(b.subrange(16, 20) =~= be32(h.xmit));
    lemma_read_at(b, 16, h.xmit);
    assert(b.subrange(20, 24) =~= be32(h.una));
    lemma_read_at(b, 20, h.una);
    assert(b.subrange(24, 28) =~= be32(h.seq));
    lemma_read_at(b, 24, h.seq);
    assert(b[28] == h.cmd);
    assert(b.subrange(29, b.len() as int) =~= payload);
}


/// What `pack` writes, `parse` reads back: a packet `q` parsed from the datagram
/// of a packed packet `p` with a valid command carries `p`'s header and payload.
pub proof fn lemma_packet_round_trip(p: UcpPacket, q: UcpPacket)
    requires
        p.wf(),
        is_valid_cmd(p.cmd),
        p.bytes() == encode(p.header_view(), p.payload_bytes()),
        q.header_view() == decode_header(p.bytes()),
        q.payload_bytes() == p.bytes().subrange(UCP_PACKET_META_SIZE as int, p.bytes().len() as int),
    ensures
        is_accepted_frame(p.bytes()),
        q.header_view() == p.header_view(),
        q.payload_bytes() == p.payload_bytes(),
{
    lemma_frame_round_trip(p.header_view(), p.payload_bytes());
}

/// A datagram buffer with its decoded header, a write position at the end of the
/// payload and a read cursor into the received bytes.
pub struct UcpPacket {
    pub buf: Vec<u8>,
    /// Length of the datagram in `buf`.
    pub size: usize,
    /// Length of the payload after the header.
    pub payload: u16,
    /// Read cursor into `buf`.
    pub read_pos: usize,
    /// How often a later packet was acknowledged while this one was in flight.
    pub skip_times: u32,
    pub session_id: u32,
    pub timestamp: u32,
    pub window: u32,
    pub xmit: u32,
    pub una: u32,
    pub seq: u32,
    pub cmd: u8,
}

impl UcpPacket {
    pub open spec fn wf(&self) -> bool {
        &&& self.buf@.len() == UCP_MTU
        &&& self.size <= UCP_MTU
        &&& UCP_PACKET_META_SIZE + self.payload <= UCP_MTU
        &&& self.read_pos <= UCP_MTU
    }

    /// The datagram bytes: the first `size` bytes of the buffer.
    pub open spec fn bytes(&self) -> Seq<u8> {
        self.buf@.subrange(0, self.size as int)
    }

    /// The payload written so far, or decoded by `parse`.
    pub open spec fn payload_bytes(&self) -> Seq<u8> {
        self.buf@.subrange(
            UCP_PACKET_META_SIZE as int,
            UCP_PACKET_META_SIZE as int + self.payload as int,
        )
    }

    pub open spec fn payload_len(&self) -> nat {
        self.payload as nat
    }

    pub open spec fn read_offset(&self) -> nat {
        self.read_pos as nat
    }

    pub open spec fn size_of(&self) -> nat {
        self.size as nat
    }

    pub open spec fn header_view(&self) -> UcpHeader {
        UcpHeader {
            session_id: self.session_id,
            timestamp: self.timestamp,
            window: self.window,
            xmit: self.xmit,
            una: self.una,
            seq: self.seq,
            cmd: self.cmd,
        }
    }

    /// The bytes not yet read, from the read cursor to the end of the datagram.
    pub open spec fn unread(&self) -> Seq<u8> {
        self.bytes().subrange(self.read_offset() as int, self.size_of() as int)
    }

    pub open spec fn remaining_load_spec(&self) -> nat {
        (UCP_MAX_PAYLOAD - self.payload_len()) as nat
    }

    pub fn new() -> (r: UcpPacket)
        ensures
            r.wf(),
            r.size_of() == 0,
            r.payload_len() == 0,
            r.read_offset() == 0,
            r.skip_times == 0,
            forall|i: int| 0 <= i < UCP_MTU ==> #[trigger] r.buf@[i] == 0,
            r.header_view() == (UcpHeader {
                session_id: 0,
                timestamp: 0,
                window: 0,
                xmit: 0,
                una: 0,
                seq: 0,
                cmd: 0,
            }),
    {
        UcpPacket {
            buf: vec![0u8; UCP_MTU],
            size: 0,
            payload: 0,
            read_pos: 0,
            skip_times: 0,
            session_id: 0,
            timestamp: 0,
            window: 0,
            xmit: 0,
            una: 0,
            seq: 0,
            cmd: 0,
        }
    }

    /// A packet holding a received datagram, not yet parsed.
    pub fn from_datagram(data: &[u8]) -> (r: UcpPacket)
        requires
            data@.len() <= UCP_MTU,
        ensures
            r.wf(),
            r.bytes() == data@,
            r.payload_len() == 0,
            r.read_offset() == 0,
            r.skip_times == 0,
    {
        let mut packet = UcpPacket::new();
        let mut i: usize = 0;
        while i < data.len()
            invariant
                packet.wf(),
                i <= data@.len() <= UCP_MTU,
                packet.payload == 0,
                packet.read_pos == 0,
                packet.size == 0,
                packet.skip_times == 0,
                forall|k: int| 0 <= k < i ==> packet.buf@[k] == data@[k],
            decreases data@.len() - i,
        {
            packet.buf.set(i, data[i]);
            i = i + 1;
        }
        packet.size = data.len();
        assert(packet.bytes() =~= data@);
        packet
    }

    pub fn parse_u8(&self, offset: &mut usize) -> (r: u8)
        requires
            self.wf(),
            *old(offset) < UCP_MTU,
        ensures
            r == self.buf@[*old(offset) as int],
            *final(offset) == *old(offset) + 1,
    {
        let u = self.buf[*offset];
        *offset = *offset + 1;
        u
    }

    pub fn parse_u32(&self, offset: &mut usize) -> (r: u32)
        requires
            self.wf(),
            *old(offset) + 4 <= UCP_MTU,
        ensures
            r == read_be32(self.buf@, *old(offset) as int),
            *final(offset) == *old(offset) + 4,
    {
        let i = *offset;
        let u = ((self.buf[i] as u32) << 24u32) | ((self.buf[i + 1] as u32) << 16u32) | ((
        self.buf[i + 2] as u32) << 8u32) | (self.buf[i + 3] as u32);
        *offset = i + 4;
        u
    }

    pub fn write_u8(&mut self, offset: &mut usize, u: u8)
        requires
            old(self).wf(),
            *old(offset) < UCP_MTU,
        ensures
            final(self).wf(),
            final(self).buf@ == old(self).buf@.update(*old(offset) as int, u),
            *final(offset) == *old(offset) + 1,
            final(self).size == old(self).size,
            final(self).payload == old(self).payload,
            final(self).read_pos == old(self).read_pos,
            final(self).header_view() == old(self).header_view(),
            final(self).skip_times == old(self).skip_times,
    {
        self.buf.set(*offset, u);
        *offset = *offset + 1;
    }

    pub fn write_u32(&mut self, offset: &mut usize, u: u32)
        requires
            old(self).wf(),
            *old(offset) + 4 <= UCP_MTU,
        ensures
            final(self).wf(),
            final(self).buf@ == old(self).buf@.subrange(0, *old(offset) as int) + be32(u)
                + old(self).buf@.subrange(*old(offset) + 4, UCP_MTU as int),
            *final(offset) == *old(offset) + 4,
            final(self).size == old(self).size,
            final(self).payload == old(self).payload,
            final(self).read_pos == old(self).read_pos,
            final(self).header_view() == old(self).header_view(),
            final(self).skip_times == old(self).skip_times,
    {
        let i = *offset;
        self.buf.set(i, (u >> 24u32) as u8);
        self.buf.set(i + 1, (u >> 16u32) as u8);
        self.buf.set(i + 2, (u >> 8u32) as u8);
        self.buf.set(i + 3, u as u8);
        *offset = i + 4;
        assert(self.buf@ =~= old(self).buf@.subrange(0, i as int) + be32(u) + old(
            self,
        ).buf@.subrange(i + 4, UCP_MTU as int));
    }

    pub fn is_crc32_correct(&self) -> (r: bool)
        requires
            self.wf(),
            self.size >= 4,
        ensures
            r == (read_be32(self.bytes(), 0) == crc32_ieee(self.bytes().subrange(4, self.size as int))),
    {
        let mut offset: usize = 0;
        let digest = self.parse_u32(&mut offset);
        let body = &self.buf.as_slice()[4..self.size];
        assert(body@ =~= self.bytes().subrange(4, self.size as int));
        assert(read_be32(self.bytes(), 0) == read_be32(self.buf@, 0));
        checksum_ieee(body) == digest
    }

    pub fn is_legal(&self) -> (r: bool)
        requires
            self.wf(),
        ensures
            r == is_legal_frame(self.bytes()),
    {
        self.size >= UCP_PACKET_META_SIZE && self.is_crc32_correct()
    }

    /// Validates the received datagram and decodes its header. The header is
    /// decoded whenever the datagram is legal; the result also asks for a known
    /// command.
    pub fn parse(&mut self) -> (r: bool)
        requires
            old(self).wf(),
        ensures
            final(self).wf(),
            r == is_accepted_frame(old(self).bytes()),
            final(self).bytes() == old(self).bytes(),
            final(self).buf == old(self).buf,
            final(self).size == old(self).size,
            final(self).skip_times == old(self).skip_times,
            is_legal_frame(old(self).bytes()) ==> {
                &&& final(self).header_view() == decode_header(old(self).bytes())
                &&& final(self).payload_bytes() == old(self).bytes().subrange(
                    UCP_PACKET_META_SIZE as int,
                    old(self).size as int,
                )
                &&& final(self).read_offset() == UCP_PACKET_META_SIZE
                &&& final(self).size + 0 == UCP_PACKET_META_SIZE + final(self).payload
            },
            !is_legal_frame(old(self).bytes()) ==> *final(self) == *old(self),
    {
        if !self.is_legal() {
            return false;
        }
        self.payload = (self.size - UCP_PACKET_META_SIZE) as u16;
        self.read_pos = UCP_PACKET_META_SIZE;

        let ghost b = self.bytes();
        assert forall|i: int| 0 <= i < 29 implies b[i] == self.buf@[i] by {}
        let mut offset: usize = 4;
        self.session_id = self.parse_u32(&mut offset);
        self.timestamp = self.parse_u32(&mut offset);
        self.window = self.parse_u32(&mut offset);
        self.xmit = self.parse_u32(&mut offset);
        self.una = self.parse_u32(&mut offset);
        self.seq = self.parse_u32(&mut offset);
        self.cmd = self.parse_u8(&mut offset);
        assert(self.payload_bytes() =~= b.subrange(29, self.size as int));
        self.cmd >= CMD_SYN && self.cmd <= CMD_HEARTBEAT_ACK
    }

    /// Writes the header and the CRC in front of the payload and sets the
    /// datagram's size.
    pub fn pack(&mut self)
        requires
            old(self).wf(),
        ensures
            final(self).wf(),
            final(self).bytes() == encode(old(self).header_view(), old(self).payload_bytes()),
            final(self).header_view() == old(self).header_view(),
            final(self).payload_bytes() == old(self).payload_bytes(),
            final(self).size == UCP_PACKET_META_SIZE + old(self).payload,
            final(self).payload == old(self).payload,
            final(self).read_pos == old(self).read_pos,
            final(self).skip_times == old(self).skip_times,
    {
        let ghost h = self.header_view();
        let ghost p = self.payload_bytes();
        let mut offset: usize = 4;
        let session_id = self.session_id;
        let timestamp = self.timestamp;
        let window = self.window;
        let xmit = self.xmit;
        let una = self.una;
        let seq = self.seq;
        let cmd = self.cmd;

        self.write_u32(&mut offset, session_id);
        self.write_u32(&mut offset, timestamp);
        self.write_u32(&mut offset, window);
        self.write_u32(&mut offset, xmit);
        self.write_u32(&mut offset, una);
        self.write_u32(&mut offset, seq);
        self.write_u8(&mut offset, cmd);
        let ghost mid = self.buf@;
        assert(mid.subrange(4, 29) =~= header_bytes(h));
        assert(mid.subrange(29, 29 + self.payload) =~= p);

        self.size = self.payload as usize + UCP_PACKET_META_SIZE;
        let body = &self.buf.as_slice()[4..self.size];
        assert(body@ =~= header_bytes(h) + p);
        let digest = checksum_ieee(body);
        let mut offset: usize = 0;
        self.write_u32(&mut offset, digest);
        assert(self.bytes() =~= encode(h, p));
        assert(self.payload_bytes() =~= p);
    }

    /// The packed datagram.
    pub fn packed_buffer(&self) -> (r: &[u8])
        requires
            self.wf(),
        ensures
            r@ == self.bytes(),
    {
        &self.buf.as_slice()[0..self.size]
    }

    /// The decoded header fields.
    pub fn header(&self) -> (r: UcpHeader)
        ensures
            r == self.header_view(),
    {
        UcpHeader {
            session_id: self.session_id,
            timestamp: self.timestamp,
            window: self.window,
            xmit: self.xmit,
            una: self.una,
            seq: self.seq,
            cmd: self.cmd,
        }
    }

    pub fn is_syn(&self) -> (r: bool)
        ensures
            r == (self.cmd == CMD_SYN),
    {
        self.cmd == CMD_SYN
    }

    /// Room left for payload.
    pub fn remaining_load(&self) -> (r: usize)
        requires
            self.wf(),
        ensures
            r == self.remaining_load_spec(),
    {
        self.buf.len() - self.payload as usize - UCP_PACKET_META_SIZE
    }

    /// Offset in the buffer where the next payload byte goes.
    pub fn payload_offset(&self) -> (r: usize)
        requires
            self.wf(),
        ensures
            r == UCP_PACKET_META_SIZE + self.payload,
    {
        self.payload as usize + UCP_PACKET_META_SIZE
    }

    /// Appends a big-endian word to the payload, if it fits.
    pub fn payload_write_u32(&mut self, u: u32) -> (r: bool)
        requires
            old(self).wf(),
        ensures
            final(self).wf(),
            r == (old(self).remaining_load_spec() >= 4),
            r ==> final(self).payload_bytes() == old(self).payload_bytes() + be32(u),
            r ==> final(self).buf@ == old(self).buf@.subrange(0, UCP_PACKET_META_SIZE + old(self).payload)
                + be32(u) + old(self).buf@.subrange(
                UCP_PACKET_META_SIZE + old(self).payload + 4,
                UCP_MTU as int,
            ),
            !r ==> *final(self) == *old(self),
            final(self).payload_len() == old(self).payload_len() + if r { 4nat } else { 0nat },
            final(self).header_view() == old(self).header_view(),
            final(self).size == old(self).size,
            final(self).read_pos == old(self).read_pos,
            final(self).skip_times == old(self).skip_times,
    {
        if self.remaining_load() >= 4 {
            let ghost p = self.payload_bytes();
            let mut offset = self.payload_offset();
            self.write_u32(&mut offset, u);
            self.payload = self.payload + 4;
            assert(self.payload_bytes() =~= p + be32(u));
            true
        } else {
            false
        }
    }

    /// Appends bytes to the payload, if they all fit.
    pub fn payload_write_slice(&mut self, buf: &[u8]) -> (r: bool)
        requires
            old(self).wf(),
        ensures
            final(self).wf(),
            r == (old(self).remaining_load_spec() >= buf@.len()),
            r ==> final(self).payload_bytes() == old(self).payload_bytes() + buf@,
            r ==> final(self).buf@ == old(self).buf@.subrange(0, UCP_PACKET_META_SIZE + old(self).payload)
                + buf@ + old(self).buf@.subrange(
                UCP_PACKET_META_SIZE + old(self).payload + buf@.len(),
                UCP_MTU as int,
            ),
            !r ==> *final(self) == *old(self),
            final(self).payload_len() == old(self).payload_len() + if r { buf@.len() } else { 0nat },
            final(self).header_view() == old(self).header_view(),
            final(self).size == old(self).size,
            final(self).read_pos == old(self).read_pos,
            final(self).skip_times == old(self).skip_times,
    {
        if self.remaining_load() >= buf.len() {
            let ghost p = self.payload_bytes();
            let offset = self.payload_offset();
            let mut i: usize = 0;
            while i < buf.len()
                invariant
                    self.wf(),
                    self.payload == old(self).payload,
                    self.size == old(self).size,
                    self.read_pos == old(self).read_pos,
                    self.header_view() == old(self).header_view(),
                    self.skip_times == old(self).skip_times,
                    offset == UCP_PACKET_META_SIZE + self.payload,
                    offset + buf@.len() <= UCP_MTU,
                    i <= buf@.len(),
                    forall|k: int| 0 <= k < offset ==> self.buf@[k] == old(self).buf@[k],
                    forall|k: int| offset + buf@.len() <= k < UCP_MTU ==> self.buf@[k] == old(self).buf@[k],
                    forall|k: int| 0 <= k < i ==> self.buf@[offset + k] == buf@[k],
                decreases buf@.len() - i,
            {
                self.buf.set(offset + i, buf[i]);
                i = i + 1;
            }
            self.payload = self.payload + buf.len() as u16;
            assert(self.payload_bytes() =~= p + buf@);
            assert(self.buf@ =~= old(self).buf@.subrange(0, offset as int) + buf@ + old(self).buf@.subrange(
                offset + buf@.len(),
                UCP_MTU as int,
            ));
            true
        } else {
            false
        }
    }

    /// Bytes left to read.
    pub fn payload_remaining(&self) -> (r: usize)
        requires
            self.wf(),
            self.read_pos <= self.size,
        ensures
            r == self.size - self.read_pos,
    {
        self.size - self.read_pos
    }

    /// Reads the next big-endian word of the payload.
    pub fn payload_read_u32(&mut self) -> (r: u32)
        requires
            old(self).wf(),
            old(self).read_pos + 4 <= old(self).size,
        ensures
            final(self).wf(),
            r == read_be32(old(self).bytes(), old(self).read_pos as int),
            final(self).read_pos == old(self).read_pos + 4,
            final(self).buf == old(self).buf,
            final(self).size == old(self).size,
            final(self).payload == old(self).payload,
            final(self).header_view() == old(self).header_view(),
            final(self).skip_times == old(self).skip_times,
    {
        let mut offset = self.read_pos;
        let u = self.parse_u32(&mut offset);
        self.read_pos = offset;
        u
    }

    /// Copies as many unread bytes as fit into `buf` and advances the cursor.
    pub fn payload_read_slice(&mut self, buf: &mut [u8]) -> (r: usize)
        requires
            old(self).wf(),
            old(self).read_pos <= old(self).size,
        ensures
            final(self).wf(),
            r == if old(self).unread().len() < old(buf)@.len() {
                old(self).unread().len()
            } else {
                old(buf)@.len()
            },
            final(buf)@ == old(self).unread().subrange(0, r as int) + old(buf)@.subrange(
                r as int,
                old(buf)@.len() as int,
            ),
            final(self).read_pos == old(self).read_pos + r,
            final(self).buf == old(self).buf,
            final(self).size == old(self).size,
            final(self).payload == old(self).payload,
            final(self).header_view() == old(self).header_view(),
            final(self).skip_times == old(self).skip_times,
    {
        let r = self.payload_read_into(buf, 0);
        assert(buf@ =~= old(self).unread().subrange(0, r as int) + old(buf)@.subrange(
            r as int,
            old(buf)@.len() as int,
        ));
        r
    }

    /// Copies as many unread bytes as fit into `buf` from position `at` on, and
    /// advances the cursor.
    pub fn payload_read_into(&mut self, buf: &mut [u8], at: usize) -> (r: usize)
        requires
            old(self).wf(),
            old(self).read_pos <= old(self).size,
            at <= old(buf)@.len(),
        ensures
            final(self).wf(),
            r == if old(self).unread().len() < old(buf)@.len() - at {
                old(self).unread().len() as int
            } else {
                old(buf)@.len() - at
            },
            final(buf)@ == old(buf)@.subrange(0, at as int) + old(self).unread().subrange(
                0,
                r as int,
            ) + old(buf)@.subrange(at + r, old(buf)@.len() as int),
            final(self).read_pos == old(self).read_pos + r,
            final(self).buf == old(self).buf,
            final(self).size == old(self).size,
            final(self).payload == old(self).payload,
            final(self).header_view() == old(self).header_view(),
            final(self).skip_times == old(self).skip_times,
    {
        let remaining = self.payload_remaining();
        let room = buf.len() - at;
        let size = if remaining < room {
            remaining
        } else {
            room
        };
        let start = self.read_pos;
        let mut i: usize = 0;
        while i < size
            invariant
                self.wf(),
                i <= size,
                start == self.read_pos,
                at + size <= buf@.len() <= usize::MAX,
                start + size <= self.size,
                buf@.len() == old(buf)@.len(),
                forall|k: int| 0 <= k < at ==> buf@[k] == old(buf)@[k],
                forall|k: int| 0 <= k < i ==> #[trigger] buf@[at + k] == self.buf@[start + k],
                forall|k: int| at + i <= k < buf@.len() ==> buf@[k] == old(buf)@[k],
            decreases size - i,
        {
            buf[at + i] = self.buf[start + i];
            i = i + 1;
        }
        self.read_pos = start + size;
        let ghost u = old(self).unread();
        assert forall|k: int| 0 <= k < size implies #[trigger] u[k] == buf@[at + k] by {
            assert(u[k] == old(self).bytes()[start + k]);
        }
        assert(buf@ =~= old(buf)@.subrange(0, at as int) + old(self).unread().subrange(
            0,
            size as int,
        ) + old(buf)@.subrange(at + size, old(buf)@.len() as int));
        size
    }
}

} // verus!
