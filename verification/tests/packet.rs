use muterminal::packet::{muon_dispatch_v2, MuPacket};

#[test]
fn mupacket_is_32_bytes() {
    assert_eq!(std::mem::size_of::<MuPacket>(), 32);
}

#[test]
fn trigger_bit_only_on_first_packet() {
    let p0 = MuPacket::new(0, b"hello");
    let p1 = MuPacket::new(1, b"world");
    assert_eq!(p0.header & MuPacket::TRIGGER_BIT, MuPacket::TRIGGER_BIT);
    assert_eq!(p1.header & MuPacket::TRIGGER_BIT, 0);
}

#[test]
fn muon_dispatch_v2_produces_correct_packet_count() {
    let data: Vec<u8> = vec![0u8; 248 * 24];
    let pkts = muon_dispatch_v2(&data);
    assert_eq!(pkts.len(), 248);
}

#[test]
fn as_bytes_round_trips_via_from_bytes() {
    let pkt = MuPacket::new(7, b"round_trip_test_data");
    let bytes: [u8; 32] = pkt.as_bytes();
    let restored = MuPacket::from_bytes(&bytes);
    assert_eq!(restored.seq, 7);
    assert_eq!(restored.len, 20);
    assert_eq!(&restored.payload[..20], b"round_trip_test_data");
}

#[test]
fn new_truncates_to_24_bytes_and_zero_fills() {
    let long: Vec<u8> = (1u8..=30).collect();
    let p = MuPacket::new(3, &long);
    assert_eq!(p.len, 24);
    assert_eq!(p.header, 0);
    assert_eq!(p.flags, 0);
    assert_eq!(p.seq, 3);
    assert_eq!(&p.payload[..], &long[..24]);

    let short = MuPacket::new(0, b"ab");
    assert_eq!(short.len, 2);
    assert_eq!(short.header, 0x80);
    assert_eq!(&short.payload[..2], b"ab");
    assert!(short.payload[2..].iter().all(|&b| b == 0));

    let empty = MuPacket::new(9, b"");
    assert_eq!(empty.len, 0);
    assert_eq!(empty.payload, [0u8; 24]);
}

#[test]
fn as_bytes_lays_out_fields_little_endian() {
    let mut p = MuPacket::new(0x1234, b"xyz");
    p.flags = 0x5a;
    p.len = 0x0a0b0c0d;
    let b = p.as_bytes();
    assert_eq!(b[0], 0);
    assert_eq!(b[1], 0x5a);
    assert_eq!(&b[2..4], &[0x34, 0x12]);
    assert_eq!(&b[4..8], &[0x0d, 0x0c, 0x0b, 0x0a]);
    assert_eq!(&b[8..11], b"xyz");
    assert!(b[11..].iter().all(|&x| x == 0));
}

#[test]
fn from_bytes_decodes_every_field() {
    let mut raw = [0u8; 32];
    raw[0] = 0x80;
    raw[1] = 7;
    raw[2] = 0xff;
    raw[3] = 0x01;
    raw[4] = 0x01;
    raw[5] = 0x02;
    raw[6] = 0x03;
    raw[7] = 0x04;
    for i in 8..32 {
        raw[i] = i as u8;
    }
    let p = MuPacket::from_bytes(&raw);
    assert_eq!(p.header, 0x80);
    assert_eq!(p.flags, 7);
    assert_eq!(p.seq, 0x01ff);
    assert_eq!(p.len, 0x04030201);
    assert_eq!(&p.payload[..], &raw[8..]);
    assert_eq!(p.as_bytes(), raw);
}

#[test]
fn dispatch_splits_into_24_byte_chunks_and_reassembles() {
    let data: Vec<u8> = (0u8..50).collect();
    let pkts = muon_dispatch_v2(&data);
    assert_eq!(pkts.len(), 3);
    assert_eq!(pkts[0].len, 24);
    assert_eq!(pkts[1].len, 24);
    assert_eq!(pkts[2].len, 2);
    for (i, p) in pkts.iter().enumerate() {
        assert_eq!(p.seq as usize, i);
    }
    let mut joined = Vec::new();
    for p in &pkts {
        joined.extend_from_slice(&p.payload[..p.len as usize]);
    }
    assert_eq!(joined, data);
    assert!(muon_dispatch_v2(&[]).is_empty());
}

#[test]
fn dispatch_triggers_only_first_packet() {
    let data: Vec<u8> = vec![1u8; 10 * 24];
    let pkts = muon_dispatch_v2(&data);
    assert_eq!(pkts[0].header & MuPacket::TRIGGER_BIT, MuPacket::TRIGGER_BIT);
    for p in &pkts[1..] {
        assert_eq!(p.header & MuPacket::TRIGGER_BIT, 0);
    }
}

#[test]
fn dispatch_sequence_number_wraps_but_trigger_stays_on_first() {
    let data: Vec<u8> = vec![0u8; 65537 * 24];
    let pkts = muon_dispatch_v2(&data);
    assert_eq!(pkts.len(), 65537);
    assert_eq!(pkts[65535].seq, 65535);
    assert_eq!(pkts[65536].seq, 0);
    assert_eq!(pkts[65536].header & MuPacket::TRIGGER_BIT, 0);
    assert_eq!(pkts[0].header & MuPacket::TRIGGER_BIT, MuPacket::TRIGGER_BIT);
}
