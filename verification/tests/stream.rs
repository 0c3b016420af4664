use muterminal::packet::{muon_dispatch_v2, MuPacket};
use muterminal::stream::{burst_read_step, decode_burst, ReadEvent, ReadStep};

fn encode(pkts: &[MuPacket]) -> Vec<u8> {
    let mut out = Vec::new();
    for p in pkts {
        out.extend_from_slice(&p.as_bytes());
    }
    out
}

#[test]
fn decode_burst_recovers_all_packets() {
    let data: Vec<u8> = (0u8..=255).cycle().take(248 * 24).collect();
    let sent = muon_dispatch_v2(&data);
    let bytes = encode(&sent);
    let received = decode_burst(&bytes);
    assert_eq!(received.len(), 248);
    assert_eq!(received[0].header & MuPacket::TRIGGER_BIT, MuPacket::TRIGGER_BIT);
    assert_eq!(received[1].header & MuPacket::TRIGGER_BIT, 0);
    for (a, b) in sent.iter().zip(received.iter()) {
        assert_eq!(a.as_bytes(), b.as_bytes());
    }
}

#[test]
fn decode_burst_drops_trailing_partial_frame() {
    let sent = muon_dispatch_v2(&vec![9u8; 7 * 24]);
    let mut bytes = encode(&sent);
    bytes.extend_from_slice(&[1, 2, 3]);
    let received = decode_burst(&bytes);
    assert_eq!(received.len(), 7);
    assert_eq!(received[6].seq, 6);
    assert!(decode_burst(&bytes[..31]).is_empty());
}

#[test]
fn read_step_decisions() {
    assert_eq!(burst_read_step(0, 64, ReadEvent::Read(32)), ReadStep::Continue(32));
    assert_eq!(burst_read_step(32, 64, ReadEvent::Read(32)), ReadStep::Finished(64));
    assert_eq!(burst_read_step(10, 64, ReadEvent::Read(0)), ReadStep::Truncated);
    assert_eq!(burst_read_step(0, 64, ReadEvent::Read(64)), ReadStep::Finished(64));
    assert_eq!(burst_read_step(10, 64, ReadEvent::WouldBlock), ReadStep::Continue(10));
    assert_eq!(burst_read_step(10, 64, ReadEvent::Failed), ReadStep::Abort);
}

fn run(total: usize, reads: &[ReadEvent]) -> ReadStep {
    let mut received = 0;
    for ev in reads {
        let ev = match ev {
            ReadEvent::Read(n) => ReadEvent::Read(*n),
            ReadEvent::WouldBlock => ReadEvent::WouldBlock,
            ReadEvent::Failed => ReadEvent::Failed,
        };
        match burst_read_step(received, total, ev) {
            ReadStep::Continue(now) => received = now,
            other => return other,
        }
    }
    ReadStep::Continue(received)
}

#[test]
fn read_steps_finish_however_the_bytes_are_split() {
    let a = run(96, &[ReadEvent::Read(96)]);
    let b = run(96, &[ReadEvent::Read(10), ReadEvent::WouldBlock, ReadEvent::Read(50), ReadEvent::Read(36)]);
    let c = run(96, &[ReadEvent::WouldBlock, ReadEvent::Read(32), ReadEvent::Read(32), ReadEvent::Read(32)]);
    assert_eq!(a, ReadStep::Finished(96));
    assert_eq!(b, ReadStep::Finished(96));
    assert_eq!(c, ReadStep::Finished(96));
}

#[test]
fn read_steps_report_a_short_burst() {
    assert_eq!(run(96, &[ReadEvent::Read(40), ReadEvent::Read(0)]), ReadStep::Truncated);
    assert_eq!(run(96, &[ReadEvent::WouldBlock, ReadEvent::Read(0)]), ReadStep::Truncated);
}
