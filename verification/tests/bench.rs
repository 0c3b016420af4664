use muterminal::bench::{fmt_commas, fmt_fixed2, latency_summary};

#[test]
fn fmt_commas_basic() {
    assert_eq!(fmt_commas(0), "0");
    assert_eq!(fmt_commas(999), "999");
    assert_eq!(fmt_commas(1_000), "1,000");
    assert_eq!(fmt_commas(1_045_861), "1,045,861");
    assert_eq!(fmt_commas(12_550_343), "12,550,343");
}

#[test]
fn fmt_commas_extremes() {
    assert_eq!(fmt_commas(100_000), "100,000");
    assert_eq!(fmt_commas(u64::MAX), "18,446,744,073,709,551,615");
}

#[test]
fn fmt_fixed2_two_decimal_places() {
    assert_eq!(fmt_fixed2(1_045_861, 89), "1,045,861.89");
    assert_eq!(fmt_fixed2(5, 7), "5.07");
    assert_eq!(fmt_fixed2(0, 0), "0.00");
    assert_eq!(fmt_fixed2(12, 100), "13.00");
    assert_eq!(fmt_fixed2(1, 100), "2.00");
    assert_eq!(fmt_fixed2(999, 100), "1,000.00");
    assert_eq!(fmt_fixed2(3, 250), "5.50");
}

#[test]
fn latency_summary_sorts_and_reads_percentile_and_jitter() {
    let mut samples: Vec<u64> = (0..1000u64).rev().map(|x| x * 10 + 5).collect();
    let s = latency_summary(&mut samples);
    assert_eq!(samples[0], 5);
    assert_eq!(samples[999], 9995);
    assert!(samples.windows(2).all(|w| w[0] <= w[1]));
    assert_eq!(s.p999_ns, 9995);
    assert_eq!(s.jitter_ns, 9990);

    let mut one = vec![42u64];
    let s1 = latency_summary(&mut one);
    assert_eq!(s1.p999_ns, 42);
    assert_eq!(s1.jitter_ns, 0);

    let mut two_thousand: Vec<u64> = (0..2000u64).collect();
    let s2 = latency_summary(&mut two_thousand);
    assert_eq!(s2.p999_ns, 1998);
    assert_eq!(s2.jitter_ns, 1999);
}
