use vstd::prelude::*;

verus! {

/// A 32-byte packet.
///
/// Wire layout (32 bytes, little-endian integers):
///   header  : u8        @ offset  0 — trigger bit (0x80) set on the first packet of a burst
///   flags   : u8        @ offset  1 — reserved frame flags
///   seq     : u16       @ offset  2 — sequence number within a burst
///   len     : u32       @ offset  4 — byte count of valid payload data
///   payload : [u8; 24]  @ offset  8 — raw payload bytes
#[derive(Clone, Copy, Debug, Default)]
pub struct MuPacket {
    pub header: u8,
    pub flags: u8,
    pub seq: u16,
    pub len: u32,
    pub payload: [u8; 24],
}

/// The header a packet with sequence number `seq` carries: the trigger bit
/// on the first packet of a burst, nothing otherwise.
pub open spec fn header_for(seq: u16) -> u8 {
    if seq == 0 { 0x80u8 } else { 0u8 }
}

/// How many bytes of `data` fit into one packet.
pub open spec fn clamped_len(data: Seq<u8>) -> nat {
    if data.len() < 24 { data.len() } else { 24 }
}

/// The 24 payload bytes of a packet built from `data`: its first bytes,
/// then zeros.
pub open spec fn padded_payload(data: Seq<u8>) -> Seq<u8> {
    Seq::new(24, |i: int| if i < clamped_len(data) { data[i] } else { 0u8 })
}

/// `p` is the packet built from sequence number `seq` and the bytes `data`.
pub open spec fn is_built_from(p: MuPacket, seq: u16, data: Seq<u8>) -> bool {
    &&& p.header == header_for(seq)
    &&& is_framed(p, seq, data)
}

/// Every field of `p` but the header is that of a packet carrying `data`
/// under sequence number `seq`.
pub open spec fn is_framed(p: MuPacket, seq: u16, data: Seq<u8>) -> bool {
    &&& p.flags == 0
    &&& p.seq == seq
    &&& p.len == clamped_len(data)
    &&& p.payload@ == padded_payload(data)
}

/// Little-endian bytes of a `u16`.
pub open spec fn le_bytes_u16(x: u16) -> Seq<u8> {
    seq![(x % 256) as u8, (x / 256) as u8]
}

/// Little-endian bytes of a `u32`.
pub open spec fn le_bytes_u32(x: u32) -> Seq<u8> {
    seq![
        (x % 256) as u8,
        ((x / 256) % 256) as u8,
        ((x / 65536) % 256) as u8,
        (x / 16777216) as u8,
    ]
}

/// The 32-byte wire image of a packet.
pub open spec fn wire_image(p: MuPacket) -> Seq<u8> {
    seq![p.header, p.flags] + le_bytes_u16(p.seq) + le_bytes_u32(p.len) + p.payload@
}

/// The integer whose little-endian bytes are `b` (at most 4 of them).
pub open spec fn le_value(b: Seq<u8>) -> nat
    decreases b.len(),
{
    if b.len() == 0 {
        0
    } else {
        b[0] as nat + 256 * le_value(b.drop_first())
    }
}

proof fn lemma_le_bytes_u16_of(x: u16, b0: u8, b1: u8)
    requires
        x == b0 + 256 * b1,
    ensures
        le_bytes_u16(x) == seq![b0, b1],
        le_value(seq![b0, b1]) == x,
{
    reveal_with_fuel(le_value, 3);
    assert(seq![b0, b1].drop_first() =~= seq![b1]);
    assert(seq![b1].drop_first() =~= Seq::<u8>::empty());
    assert(le_bytes_u16(x) =~= seq![b0, b1]);
}

proof fn lemma_le_bytes_u32_of(x: u32, b0: u8, b1: u8, b2: u8, b3: u8)
    requires
        x == b0 + 256 * b1 + 65536 * b2 + 16777216 * b3,
    ensures
        le_bytes_u32(x) == seq![b0, b1, b2, b3],
        le_value(seq![b0, b1, b2, b3]) == x,
{
    reveal_with_fuel(le_value, 5);
    assert(seq![b0, b1, b2, b3].drop_first() =~= seq![b1, b2, b3]);
    assert(seq![b1, b2, b3].drop_first() =~= seq![b2, b3]);
    assert(seq![b2, b3].drop_first() =~= seq![b3]);
    assert(seq![b3].drop_first() =~= Seq::<u8>::empty());
    assert(x % 256 == b0 && (x / 256) % 256 == b1 && (x / 65536) % 256 == b2 && x / 16777216
        == b3) by (nonlinear_arith)
        requires
            x == b0 + 256 * b1 + 65536 * b2 + 16777216 * b3,
            b0 < 256,
            b1 < 256,
            b2 < 256,
            b3 < 256,
    ;
    assert(le_bytes_u32(x) =~= seq![b0, b1, b2, b3]);
}

/// Decoding a packet's wire image gives the packet back: two packets with the
/// same wire image are the same packet, so `from_bytes(&p.as_bytes())` is `p`.
pub proof fn lemma_wire_image_round_trip(p: MuPacket, q: MuPacket)
    requires
        wire_image(q) == wire_image(p),
    ensures
        q == p,
{
    let a = wire_image(p);
    let b = wire_image(q);
    assert(a[0] == b[0] && a[1] == b[1] && a[2] == b[2] && a[3] == b[3]);
    assert(a[4] == b[4] && a[5] == b[5] && a[6] == b[6] && a[7] == b[7]);
    assert(q.seq == p.seq);
    assert(q.len == p.len);
    assert forall|i: int| 0 <= i < 24 implies q.payload@[i] == p.payload@[i] by {
        assert(a[8 + i] == b[8 + i]);
    }
    assert(q.payload =~= p.payload);
}

/// A built packet carries the trigger bit exactly when its sequence number
/// is 0, and every other packet has an all-zero header.
pub proof fn lemma_built_trigger_iff_first(p: MuPacket, seq: u16, data: Seq<u8>)
    requires
        is_built_from(p, seq, data),
    ensures
        (p.header & 0x80u8 != 0) <==> seq == 0,
        seq != 0 ==> p.header == 0,
{
    assert(0x80u8 & 0x80u8 != 0) by (bit_vector);
    assert(0u8 & 0x80u8 == 0) by (bit_vector);
}

impl MuPacket {
    /// Size of a packet on the wire.
    pub const SIZE: usize = 32;

    /// The header bit that marks the first packet of a burst.
    pub const TRIGGER_BIT: u8 = 0x80;

    /// Build a new packet, copying up to 24 bytes from `payload`.
    /// The trigger bit is set only on the first packet (seq == 0).
    pub fn new(seq: u16, payload: &[u8]) -> (p: Self)
        ensures
            is_built_from(p, seq, payload@),
            (p.header & 0x80u8 != 0) <==> seq == 0,
            seq != 0 ==> p.header == 0,
    {
        let len: usize = if payload.len() < 24 { payload.len() } else { 24 };
        let mut p = MuPacket {
            header: if seq == 0 { Self::TRIGGER_BIT } else { 0 },
            flags: 0,
            seq,
            len: len as u32,
            payload: [0u8; 24],
        };
        let mut i: usize = 0;
        while i < len
            invariant
                len == clamped_len(payload@),
                i <= len,
                p.header == header_for(seq),
                p.flags == 0,
                p.seq == seq,
                p.len == len,
                p.payload@.len() == 24,
                forall|j: int| 0 <= j < i ==> p.payload@[j] == payload@[j],
                forall|j: int| i <= j < 24 ==> p.payload@[j] == 0u8,
            decreases len - i,
        {
            p.payload[i] = payload[i];
            i = i + 1;
        }
        assert(p.payload@ =~= padded_payload(payload@));
        proof {
            lemma_built_trigger_iff_first(p, seq, payload@);
        }
        p
    }

    /// The packet's 32-byte wire image.
    pub fn as_bytes(&self) -> (out: [u8; 32])
        ensures
            out@ == wire_image(*self),
    {
        let mut out = [0u8; 32];
        out[0] = self.header;
        out[1] = self.flags;
        out[2] = (self.seq % 256) as u8;
        out[3] = (self.seq / 256) as u8;
        out[4] = (self.len % 256) as u8;
        out[5] = ((self.len / 256) % 256) as u8;
        out[6] = ((self.len / 65536) % 256) as u8;
        out[7] = (self.len / 16777216) as u8;
        let mut i: usize = 0;
        while i < 24
            invariant
                out@.len() == 32,
                i <= 24,
                out@.subrange(0, 8) =~= seq![self.header, self.flags] + le_bytes_u16(self.seq)
                    + le_bytes_u32(self.len),
                forall|j: int| 0 <= j < i ==> out@[8 + j] == self.payload@[j],
            decreases 24 - i,
        {
            out[8 + i] = self.payload[i];
            i = i + 1;
        }
        assert(out@ =~= wire_image(*self));
        out
    }

    /// The packet whose wire image is `bytes`.
    pub fn from_bytes(bytes: &[u8; 32]) -> (p: Self)
        ensures
            wire_image(p) == bytes@,
            p.header == bytes@[0],
            p.flags == bytes@[1],
            p.seq == le_value(bytes@.subrange(2, 4)),
            p.len == le_value(bytes@.subrange(4, 8)),
            p.payload@ == bytes@.subrange(8, 32),
    {
        let seq: u16 = bytes[2] as u16 + (bytes[3] as u16) * 256;
        let len: u32 = bytes[4] as u32 + (bytes[5] as u32) * 256 + (bytes[6] as u32) * 65536
            + (bytes[7] as u32) * 16777216;
        let mut p = MuPacket { header: bytes[0], flags: bytes[1], seq, len, payload: [0u8; 24] };
        let mut i: usize = 0;
        while i < 24
            invariant
                bytes@.len() == 32,
                p.payload@.len() == 24,
                p.header == bytes@[0],
                p.flags == bytes@[1],
                p.seq == seq,
                p.len == len,
                i <= 24,
                forall|j: int| 0 <= j < i ==> p.payload@[j] == bytes@[8 + j],
            decreases 24 - i,
        {
            p.payload[i] = bytes[8 + i];
            i = i + 1;
        }
        proof {
            let b = bytes@;
            lemma_le_bytes_u16_of(seq, b[2], b[3]);
            lemma_le_bytes_u32_of(len, b[4], b[5], b[6], b[7]);
            assert(b.subrange(2, 4) =~= seq![b[2], b[3]]);
            assert(b.subrange(4, 8) =~= seq![b[4], b[5], b[6], b[7]]);
            assert(p.payload@ =~= b.subrange(8, 32));
            assert(wire_image(p) =~= b);
        }
        p
    }
}

/// Number of packets needed for `n` bytes: one per started block of 24.
pub open spec fn packet_count(n: nat) -> nat {
    (n + 23) / 24
}

/// The `i`-th block of 24 bytes of `data` (the last one may be shorter).
pub open spec fn chunk(data: Seq<u8>, i: int) -> Seq<u8> {
    let start = 24 * i;
    let end = if start + 24 <= data.len() { start + 24 } else { data.len() as int };
    data.subrange(start, end)
}

/// The header of the `i`-th packet of a stream: the trigger bit on the
/// first packet only.
pub open spec fn stream_header(i: int) -> u8 {
    if i == 0 { 0x80u8 } else { 0u8 }
}

/// `p` is the `i`-th packet that `muon_dispatch_v2` makes of `data`.
pub open spec fn is_dispatched_packet(p: MuPacket, i: int, data: Seq<u8>) -> bool {
    &&& p.header == stream_header(i)
    &&& is_framed(p, i as u16, chunk(data, i))
}

/// `packets` is what `muon_dispatch_v2` makes of `data`: one packet per
/// block of 24 bytes, numbered from 0 (the number wraps at 65536), with the
/// trigger bit on the first packet only.
pub open spec fn is_dispatch_of(packets: Seq<MuPacket>, data: Seq<u8>) -> bool {
    &&& packets.len() == packet_count(data.len())
    &&& forall|i: int|
        0 <= i < packets.len() ==> #[trigger] is_dispatched_packet(packets[i], i, data)
}

/// Whether a packet has its trigger bit set.
pub open spec fn is_triggered(p: MuPacket) -> bool {
    p.header & 0x80u8 != 0
}

/// The valid payload bytes of a packet.
pub open spec fn valid_payload(p: MuPacket) -> Seq<u8> {
    p.payload@.take(p.len as int)
}

/// The valid payload bytes of `packets`, in order.
pub open spec fn reassemble(packets: Seq<MuPacket>) -> Seq<u8>
    decreases packets.len(),
{
    if packets.len() == 0 {
        Seq::empty()
    } else {
        reassemble(packets.drop_last()) + valid_payload(packets.last())
    }
}

/// Maps raw output bytes into a `Vec<MuPacket>`.
///
/// Each packet carries up to 24 bytes of payload.  The first packet in the
/// stream has its trigger bit set so that the receiver can detect burst
/// boundaries without inspecting every payload.
pub fn muon_dispatch_v2(data: &[u8]) -> (packets: Vec<MuPacket>)
    ensures
        is_dispatch_of(packets@, data@),
        forall|i: int|
            0 <= i < packets@.len() ==> ((#[trigger] packets@[i]).header & 0x80u8 != 0 <==> i
                == 0),
        reassemble(packets@) == data@,
{
    let n = data.len();
    let count: usize = n / 24 + if n % 24 == 0 { 0 } else { 1 };
    let mut packets: Vec<MuPacket> = Vec::new();
    let mut i: usize = 0;
    while i < count
        invariant
            n == data@.len(),
            count == packet_count(n as nat),
            i <= count,
            packets@.len() == i,
            forall|k: int|
                0 <= k < i ==> #[trigger] is_dispatched_packet(packets@[k], k, data@),
        decreases count - i,
    {
        let start = 24 * i;
        let end = if n - start <= 24 { n } else { start + 24 };
        #[verifier::truncate]
        let seq = i as u16;
        let mut p = MuPacket::new(seq, &data[start..end]);
        if i > 0 {
            p.header = 0;
        }
        assert(data@.subrange(start as int, end as int) == chunk(data@, i as int));
        packets.push(p);
        i = i + 1;
    }
    proof {
        lemma_trigger_only_on_first(packets@, data@);
        lemma_dispatch_reassembles(packets@, data@);
    }
    packets
}

/// Exactly the first packet of a dispatched stream has its trigger bit set.
pub proof fn lemma_trigger_only_on_first(packets: Seq<MuPacket>, data: Seq<u8>)
    requires
        is_dispatch_of(packets, data),
    ensures
        forall|i: int|
            0 <= i < packets.len() ==> ((#[trigger] packets[i]).header & 0x80u8 != 0 <==> i == 0),
        forall|i: int| 1 <= i < packets.len() ==> (#[trigger] packets[i]).header == 0,
{
    assert(0x80u8 & 0x80u8 != 0) by (bit_vector);
    assert(0u8 & 0x80u8 == 0) by (bit_vector);
    assert forall|i: int| 0 <= i < packets.len() implies ((#[trigger] packets[i]).header & 0x80u8
        != 0 <==> i == 0) by {
        assert(is_dispatched_packet(packets[i], i, data));
    }
    assert forall|i: int| 1 <= i < packets.len() implies (#[trigger] packets[i]).header == 0 by {
        assert(is_dispatched_packet(packets[i], i, data));
    }
}

proof fn lemma_reassemble_prefix(packets: Seq<MuPacket>, data: Seq<u8>, k: int)
    requires
        is_dispatch_of(packets, data),
        0 <= k <= packets.len(),
    ensures
        reassemble(packets.take(k)) == data.take(if 24 * k <= data.len() { 24 * k } else { data.len() as int }),
    decreases k,
{
    if k == 0 {
        assert(packets.take(0) =~= Seq::<MuPacket>::empty());
        assert(data.take(0) =~= Seq::<u8>::empty());
    } else {
        lemma_reassemble_prefix(packets, data, k - 1);
        let prev = packets.take(k - 1);
        assert(packets.take(k).drop_last() =~= prev);
        let p = packets[k - 1];
        assert(is_dispatched_packet(p, k - 1, data));
        let c = chunk(data, k - 1);
        assert(valid_payload(p) =~= c);
        let lo = 24 * (k - 1);
        assert(lo < data.len());
        let hi = if 24 * k <= data.len() { 24 * k } else { data.len() as int };
        assert(data.take(lo) + c =~= data.take(hi));
    }
}

/// Concatenating the valid payloads of the dispatched packets, in order,
/// gives back the dispatched bytes.
pub proof fn lemma_dispatch_reassembles(packets: Seq<MuPacket>, data: Seq<u8>)
    requires
        is_dispatch_of(packets, data),
    ensures
        reassemble(packets) == data,
{
    let k = packets.len() as int;
    lemma_reassemble_prefix(packets, data, k);
    assert(packets.take(k) =~= packets);
    assert(data.take(data.len() as int) =~= data);
}

} // verus!
