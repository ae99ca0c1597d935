use port_scanner::probe::{classify_probe, ProbeOutcome};
use port_scanner::queue::WorkQueue;
use port_scanner::report::{collect_reports, format_report, report_for_outcome, u16_to_string};

#[test]
fn claim_next_hands_out_newest_first_then_empties() {
    let mut q = WorkQueue::new(vec![1, 2, 3]);
    assert_eq!(q.len(), 3);
    assert_eq!(q.claim_next(), Some(3));
    assert_eq!(q.claim_next(), Some(2));
    assert_eq!(q.claim_next(), Some(1));
    assert_eq!(q.claim_next(), None);
    assert_eq!(q.len(), 0);
}

#[test]
fn empty_queue_claims_nothing() {
    let mut q = WorkQueue::new(Vec::new());
    assert_eq!(q.claim_next(), None);
    assert_eq!(q.claim_next(), None);
}

#[test]
fn every_seeded_port_is_claimed_exactly_once() {
    let seeded: Vec<u16> = vec![5, 9, 5, 80, 443, 9];
    let mut q = WorkQueue::new(seeded.clone());
    let mut claims = q.drain();
    assert_eq!(q.len(), 0);
    assert_eq!(claims.len(), seeded.len());
    let mut expected = seeded.clone();
    claims.sort();
    expected.sort();
    assert_eq!(claims, expected);
}

#[test]
fn drain_claims_in_reverse_seed_order() {
    let mut q = WorkQueue::new(vec![10, 20, 30]);
    assert_eq!(q.drain(), vec![30, 20, 10]);
}

#[test]
fn classify_probe_requires_timely_handshake() {
    assert_eq!(classify_probe(true, true), ProbeOutcome::Open);
    assert_eq!(classify_probe(true, false), ProbeOutcome::ClosedOrFiltered);
    assert_eq!(classify_probe(false, false), ProbeOutcome::ClosedOrFiltered);
    assert_eq!(classify_probe(false, true), ProbeOutcome::ClosedOrFiltered);
}

#[test]
fn decimal_rendering_is_exact() {
    assert_eq!(u16_to_string(0), "0");
    assert_eq!(u16_to_string(7), "7");
    assert_eq!(u16_to_string(80), "80");
    assert_eq!(u16_to_string(1024), "1024");
    assert_eq!(u16_to_string(65535), "65535");
}

#[test]
fn report_line_has_the_exact_format() {
    assert_eq!(format_report("127.0.0.1", 8080), "127.0.0.1: Port 8080 is open");
    assert_eq!(format_report("::1", 22), "::1: Port 22 is open");
}

#[test]
fn only_open_outcomes_produce_a_report() {
    let r = report_for_outcome("10.0.0.2", 443, ProbeOutcome::Open);
    assert_eq!(r, Some(String::from("10.0.0.2: Port 443 is open")));
    let n = report_for_outcome("10.0.0.2", 444, ProbeOutcome::ClosedOrFiltered);
    assert_eq!(n, None);
}

#[test]
fn collect_reports_keeps_probe_order_of_open_ports() {
    let probes = vec![
        (80, ProbeOutcome::Open),
        (81, ProbeOutcome::ClosedOrFiltered),
        (443, ProbeOutcome::Open),
    ];
    let lines = collect_reports("192.168.0.1", &probes);
    assert_eq!(
        lines,
        vec![
            String::from("192.168.0.1: Port 80 is open"),
            String::from("192.168.0.1: Port 443 is open"),
        ]
    );
}

#[test]
fn report_set_ignores_probe_order() {
    let run_a = vec![
        (80, ProbeOutcome::Open),
        (81, ProbeOutcome::ClosedOrFiltered),
        (443, ProbeOutcome::Open),
    ];
    let run_b = vec![
        (443, ProbeOutcome::Open),
        (80, ProbeOutcome::Open),
        (81, ProbeOutcome::ClosedOrFiltered),
    ];
    let mut lines_a = collect_reports("h", &run_a);
    let mut lines_b = collect_reports("h", &run_b);
    assert_ne!(lines_a, lines_b);
    lines_a.sort();
    lines_b.sort();
    assert_eq!(lines_a, lines_b);
}
