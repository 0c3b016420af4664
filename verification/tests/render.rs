use muterminal::packet::MuPacket;
use muterminal::render::MuVis;

#[test]
fn trigger_toggles_hz_state() {
    let mut vis = MuVis::new();
    let p0 = MuPacket::new(0, b"first");
    vis.render(&[p0]);
    assert!(vis.hz_state());
    assert_eq!(vis.trigger_count(), 1);

    let p1 = MuPacket::new(1, b"second");
    vis.render(&[p1]);
    assert!(vis.hz_state());
    assert_eq!(vis.trigger_count(), 1);
}

#[test]
fn render_248_packet_burst_counts_one_trigger() {
    let mut vis = MuVis::new();
    let pkts: Vec<MuPacket> = (0u16..248).map(|i| MuPacket::new(i, b"data")).collect();
    vis.render(&pkts);
    assert_eq!(vis.trigger_count(), 1);
}

#[test]
fn second_trigger_turns_display_off() {
    let mut vis = MuVis::default();
    assert_eq!(vis.trigger_count(), 0);
    assert!(!vis.hz_state());
    let p0 = MuPacket::new(0, b"a");
    vis.render(&[p0, p0]);
    assert_eq!(vis.trigger_count(), 2);
    assert!(!vis.hz_state());
    vis.render(&[p0]);
    assert_eq!(vis.trigger_count(), 3);
    assert!(vis.hz_state());
}

#[test]
fn split_bursts_render_like_one_burst() {
    let pkts: Vec<MuPacket> = (0u16..10).map(|i| MuPacket::new(i % 3, b"x")).collect();
    let mut whole = MuVis::new();
    whole.render(&pkts);
    let mut parts = MuVis::new();
    parts.render(&pkts[..4]);
    parts.render(&pkts[4..]);
    assert_eq!(whole.trigger_count(), 4);
    assert_eq!(parts.trigger_count(), whole.trigger_count());
    assert_eq!(parts.hz_state(), whole.hz_state());
    assert!(!whole.hz_state());
    parts.render(&[]);
    assert_eq!(parts.trigger_count(), 4);
}

#[test]
fn reordered_burst_renders_the_same() {
    let pkts: Vec<MuPacket> = (0u16..7).map(|i| MuPacket::new(i % 2, b"y")).collect();
    let mut reversed = pkts.clone();
    reversed.reverse();
    let mut a = MuVis::new();
    a.render(&pkts);
    let mut b = MuVis::new();
    b.render(&reversed);
    assert_eq!(a.trigger_count(), 4);
    assert_eq!(a.trigger_count(), b.trigger_count());
    assert_eq!(a.hz_state(), b.hz_state());
}

#[test]
fn sequence_of_renders_sums_the_bursts() {
    let t = MuPacket::new(0, b"t");
    let q = MuPacket::new(5, b"q");
    let bursts: Vec<Vec<MuPacket>> = vec![vec![t, q], vec![], vec![t, t, q], vec![q]];
    let mut vis = MuVis::new();
    for b in &bursts {
        vis.render(b);
    }
    assert_eq!(vis.trigger_count(), 3);
    assert!(vis.hz_state());
}
