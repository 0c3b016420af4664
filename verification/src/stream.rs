use crate::packet::{lemma_wire_image_round_trip, wire_image, MuPacket};
use vstd::prelude::*;

verus! {

/// Capacity of the receive buffer a burst is read into.
pub const BURST_BUFFER_LEN: usize = 65536;

/// The wire images of `packets`, one after the other.
pub open spec fn encode_all(packets: Seq<MuPacket>) -> Seq<u8>
    decreases packets.len(),
{
    if packets.len() == 0 {
        Seq::empty()
    } else {
        encode_all(packets.drop_last()) + wire_image(packets.last())
    }
}

/// The 32 bytes of frame `k` in `bytes`.
pub open spec fn frame(bytes: Seq<u8>, k: int) -> Seq<u8> {
    bytes.subrange(32 * k, 32 * k + 32)
}

/// `packets` are the whole frames of `bytes` decoded in order; a trailing
/// partial frame is left out.
pub open spec fn is_decoding_of(packets: Seq<MuPacket>, bytes: Seq<u8>) -> bool {
    &&& packets.len() == bytes.len() / 32
    &&& forall|k: int| 0 <= k < packets.len() ==> wire_image(#[trigger] packets[k]) == frame(bytes, k)
}

fn frame_at(buf: &[u8], start: usize) -> (f: [u8; 32])
    requires
        start + 32 <= buf@.len(),
    ensures
        f@ == buf@.subrange(start as int, start + 32),
{
    let n = buf.len();
    let mut f = [0u8; 32];
    let mut j: usize = 0;
    while j < 32
        invariant
            n == buf@.len(),
            start + 32 <= n,
            f@.len() == 32,
            j <= 32,
            forall|m: int| 0 <= m < j ==> f@[m] == buf@[start + m],
        decreases 32 - j,
    {
        f[j] = buf[start + j];
        j = j + 1;
    }
    assert(f@ =~= buf@.subrange(start as int, start + 32));
    f
}

/// Decode every whole 32-byte frame of a received burst, in order.
///
/// Frames are decoded four at a time (128 bytes per step); the remaining
/// zero to three frames are decoded one by one.
pub fn decode_burst(buf: &[u8]) -> (packets: Vec<MuPacket>)
    ensures
        is_decoding_of(packets@, buf@),
{
    let received = buf.len();
    let full_packets = received / 32;
    let mut packets: Vec<MuPacket> = Vec::new();
    let mut offset: usize = 0;
    let unroll_end = (full_packets / 4) * 4 * 32;
    while offset < unroll_end
        invariant
            received == buf@.len(),
            full_packets == received / 32,
            unroll_end == (full_packets / 4) * 4 * 32,
            unroll_end <= received,
            offset % 128 == 0,
            offset <= unroll_end,
            offset == 32 * packets@.len(),
            forall|k: int|
                0 <= k < packets@.len() ==> wire_image(#[trigger] packets@[k]) == frame(buf@, k),
        decreases unroll_end - offset,
    {
        let mut i: usize = 0;
        while i < 4
            invariant
                received == buf@.len(),
                offset + 128 <= unroll_end,
                unroll_end <= received,
                i <= 4,
                offset + 32 * i == 32 * packets@.len(),
                forall|k: int|
                    0 <= k < packets@.len() ==> wire_image(#[trigger] packets@[k]) == frame(
                        buf@,
                        k,
                    ),
            decreases 4 - i,
        {
            let start = offset + i * 32;
            let bytes = frame_at(buf, start);
            packets.push(MuPacket::from_bytes(&bytes));
            i = i + 1;
        }
        offset = offset + 4 * 32;
    }
    while received - offset >= 32
        invariant
            received == buf@.len(),
            offset <= received,
            offset == 32 * packets@.len(),
            forall|k: int|
                0 <= k < packets@.len() ==> wire_image(#[trigger] packets@[k]) == frame(buf@, k),
        decreases received - offset,
    {
        let bytes = frame_at(buf, offset);
        packets.push(MuPacket::from_bytes(&bytes));
        offset = offset + 32;
    }
    packets
}

proof fn lemma_encode_all_frames(packets: Seq<MuPacket>)
    ensures
        encode_all(packets).len() == 32 * packets.len(),
        forall|k: int|
            0 <= k < packets.len() ==> #[trigger] frame(encode_all(packets), k) == wire_image(
                packets[k],
            ),
    decreases packets.len(),
{
    if packets.len() > 0 {
        let init = packets.drop_last();
        lemma_encode_all_frames(init);
        let e = encode_all(packets);
        let last = packets.last();
        assert(last.payload@.len() == 24);
        assert(wire_image(last).len() == 32);
        assert forall|k: int| 0 <= k < packets.len() implies #[trigger] frame(e, k) == wire_image(
            packets[k],
        ) by {
            if k < init.len() {
                assert(frame(e, k) =~= frame(encode_all(init), k));
                assert(init[k] == packets[k]);
            } else {
                assert(frame(e, k) =~= wire_image(last));
            }
        }
    }
}

/// Decoding the wire images of a sequence of packets, sent one after the
/// other, recovers exactly those packets.
pub proof fn lemma_decode_recovers_packets(sent: Seq<MuPacket>, decoded: Seq<MuPacket>)
    requires
        is_decoding_of(decoded, encode_all(sent)),
    ensures
        decoded == sent,
{
    lemma_encode_all_frames(sent);
    assert(decoded.len() == sent.len());
    assert forall|k: int| 0 <= k < sent.len() implies decoded[k] == sent[k] by {
        assert(wire_image(decoded[k]) == frame(encode_all(sent), k));
        lemma_wire_image_round_trip(sent[k], decoded[k]);
    }
    assert(decoded =~= sent);
}

/// What one read from the socket produced.
pub enum ReadEvent {
    /// The read returned this many bytes; zero means the sender closed.
    Read(usize),
    /// The socket had nothing ready yet.
    WouldBlock,
    /// The read failed.
    Failed,
}

/// What the receiver does after a read.
#[derive(Debug, PartialEq, Eq)]
pub enum ReadStep {
    /// Read again; this many bytes have arrived so far.
    Continue(usize),
    /// The whole burst has arrived: this many bytes.
    Finished(usize),
    /// The sender closed before the whole burst arrived.
    Truncated,
    /// Stop and report the read error.
    Abort,
}

/// The receiver's decision after a read that produced `event`, with
/// `received` of the `total` bytes of the burst already in.
pub open spec fn read_step(received: usize, total: usize, event: ReadEvent) -> ReadStep {
    match event {
        ReadEvent::Read(n) => if n == 0 {
            ReadStep::Truncated
        } else if received + n < total {
            ReadStep::Continue((received + n) as usize)
        } else {
            ReadStep::Finished((received + n) as usize)
        },
        ReadEvent::WouldBlock => ReadStep::Continue(received),
        ReadEvent::Failed => ReadStep::Abort,
    }
}

/// What each kind of read leads to: a failed read is reported, a read
/// that finds nothing ready is retried with nothing gained, a read of zero
/// bytes means the sender closed early, and a read of data adds to what has
/// arrived, finishing the burst exactly when all of it is in.
pub proof fn lemma_read_step_outcomes(received: usize, total: usize, event: ReadEvent)
    requires
        received < total,
        event matches ReadEvent::Read(n) ==> n <= total - received,
    ensures
        event is Failed ==> read_step(received, total, event) == ReadStep::Abort,
        event is WouldBlock ==> read_step(received, total, event) == ReadStep::Continue(received),
        event matches ReadEvent::Read(n) ==> {
            &&& n == 0 ==> read_step(received, total, event) == ReadStep::Truncated
            &&& 0 < n && received + n < total ==> read_step(received, total, event)
                == ReadStep::Continue((received + n) as usize)
            &&& 0 < n && received + n == total ==> read_step(received, total, event)
                == ReadStep::Finished(total)
        },
{
}

/// Decide the next step of reading a burst of `total` bytes, of which
/// `received` have arrived, after a read that produced `event`.  A burst is
/// finished only once all `total` bytes are in; a sender that closes
/// earlier cuts the burst short.
pub fn burst_read_step(received: usize, total: usize, event: ReadEvent) -> (step: ReadStep)
    requires
        received < total,
        event matches ReadEvent::Read(n) ==> n <= total - received,
    ensures
        step == read_step(received, total, event),
        step matches ReadStep::Finished(r) ==> r == total,
        event is Failed ==> step == ReadStep::Abort,
        event is WouldBlock ==> step == ReadStep::Continue(received),
        event matches ReadEvent::Read(n) ==> {
            &&& n == 0 ==> step == ReadStep::Truncated
            &&& 0 < n && received + n < total ==> step == ReadStep::Continue((received + n) as usize)
            &&& 0 < n && received + n == total ==> step == ReadStep::Finished(total)
        },
{
    match event {
        ReadEvent::Read(n) => {
            if n == 0 {
                ReadStep::Truncated
            } else {
                let now = received + n;
                if now < total {
                    ReadStep::Continue(now)
                } else {
                    ReadStep::Finished(now)
                }
            }
        },
        ReadEvent::WouldBlock => ReadStep::Continue(received),
        ReadEvent::Failed => ReadStep::Abort,
    }
}

/// The step the receiver ends on after the reads `events`, starting with
/// `received` of `total` bytes in; `Continue` if the reads run out first.
pub open spec fn run_reads(received: usize, total: usize, events: Seq<ReadEvent>) -> ReadStep
    decreases events.len(),
{
    if events.len() == 0 {
        ReadStep::Continue(received)
    } else {
        match read_step(received, total, events[0]) {
            ReadStep::Continue(now) => run_reads(now, total, events.drop_first()),
            other => other,
        }
    }
}

/// The reads deliver data or find nothing ready; none fails or closes.
pub open spec fn only_data(events: Seq<ReadEvent>) -> bool {
    forall|i: int|
        0 <= i < events.len() ==> match #[trigger] events[i] {
            ReadEvent::Read(n) => n > 0,
            ReadEvent::WouldBlock => true,
            ReadEvent::Failed => false,
        }
}

/// Number of bytes the reads `events` deliver.
pub open spec fn bytes_delivered(events: Seq<ReadEvent>) -> nat
    decreases events.len(),
{
    if events.len() == 0 {
        0
    } else {
        (match events[0] {
            ReadEvent::Read(n) => n as nat,
            _ => 0nat,
        }) + bytes_delivered(events.drop_first())
    }
}

/// However the sender's bytes are split across reads, and wherever the
/// socket has nothing ready, the burst finishes with all `total` bytes once
/// they have been delivered.
pub proof fn lemma_read_split_irrelevant(received: usize, total: usize, events: Seq<ReadEvent>)
    requires
        received < total,
        only_data(events),
        received + bytes_delivered(events) == total,
    ensures
        run_reads(received, total, events) == ReadStep::Finished(total),
    decreases events.len(),
{
    if events.len() == 0 {
    } else {
        let rest = events.drop_first();
        assert(only_data(rest)) by {
            assert forall|i: int| 0 <= i < rest.len() implies match #[trigger] rest[i] {
                ReadEvent::Read(n) => n > 0,
                ReadEvent::WouldBlock => true,
                ReadEvent::Failed => false,
            } by {
                assert(rest[i] == events[i + 1]);
            }
        }
        let e = events[0];
        assert(match e {
            ReadEvent::Read(n) => n > 0,
            ReadEvent::WouldBlock => true,
            ReadEvent::Failed => false,
        });
        match e {
            ReadEvent::Read(n) => {
                if received + n < total {
                    lemma_read_split_irrelevant((received + n) as usize, total, rest);
                }
            },
            ReadEvent::WouldBlock => {
                lemma_read_split_irrelevant(received, total, rest);
            },
            ReadEvent::Failed => {},
        }
    }
}

/// A sender that closes before the whole burst has been delivered cuts the
/// burst short, however its bytes were split across reads.
pub proof fn lemma_read_closed_early(received: usize, total: usize, events: Seq<ReadEvent>)
    requires
        received < total,
        only_data(events),
        received + bytes_delivered(events) < total,
    ensures
        run_reads(received, total, events.push(ReadEvent::Read(0))) == ReadStep::Truncated,
    decreases events.len(),
{
    let all = events.push(ReadEvent::Read(0));
    if events.len() == 0 {
        assert(all[0] == ReadEvent::Read(0));
    } else {
        let rest = events.drop_first();
        assert(all.drop_first() =~= rest.push(ReadEvent::Read(0)));
        assert(all[0] == events[0]);
        assert(only_data(rest)) by {
            assert forall|i: int| 0 <= i < rest.len() implies match #[trigger] rest[i] {
                ReadEvent::Read(n) => n > 0,
                ReadEvent::WouldBlock => true,
                ReadEvent::Failed => false,
            } by {
                assert(rest[i] == events[i + 1]);
            }
        }
        let e = events[0];
        assert(match e {
            ReadEvent::Read(n) => n > 0,
            ReadEvent::WouldBlock => true,
            ReadEvent::Failed => false,
        });
        match e {
            ReadEvent::Read(n) => {
                lemma_read_closed_early((received + n) as usize, total, rest);
            },
            ReadEvent::WouldBlock => {
                lemma_read_closed_early(received, total, rest);
            },
            ReadEvent::Failed => {},
        }
    }
}

} // verus!
