//! Worker-pool scans: a pool of concurrent tasks drains the shared
//! queue and reports every port whose (simulated) probe came back
//! open. The probe itself is stubbed: these tests are about the
//! exactly-once claiming and the reported set, not about sockets.
use port_scanner::ports::parse_ports;
use port_scanner::probe::{classify_probe, ProbeOutcome};
use port_scanner::queue::WorkQueue;
use port_scanner::report::report_for_outcome;
use std::sync::{Arc, Mutex};
use std::time::Duration;

/// A probe whose outcome is fixed by the set of listening ports; it
/// still suspends, so workers genuinely interleave.
async fn probe_port(port: u16, listening: &[u16]) -> ProbeOutcome {
    tokio::time::sleep(Duration::from_millis(1)).await;
    classify_probe(true, listening.contains(&port))
}

/// Scan every port of `spec` with `workers` concurrent tasks; returns
/// (ports probed, report lines), each in completion order.
async fn scan(spec: &str, workers: usize, listening: Vec<u16>) -> (Vec<u16>, Vec<String>) {
    let ports = parse_ports(spec);
    let listening = Arc::new(listening);
    let queue = Arc::new(Mutex::new(WorkQueue::new(ports)));
    let probed = Arc::new(Mutex::new(Vec::<u16>::new()));
    let reports = Arc::new(Mutex::new(Vec::<String>::new()));
    let mut handles = Vec::new();
    for _ in 0..workers {
        let listening = Arc::clone(&listening);
        let queue = Arc::clone(&queue);
        let probed = Arc::clone(&probed);
        let reports = Arc::clone(&reports);
        handles.push(tokio::spawn(async move {
            loop {
                let next = { queue.lock().unwrap().claim_next() };
                let port = match next {
                    Some(p) => p,
                    None => break,
                };
                probed.lock().unwrap().push(port);
                let outcome = probe_port(port, &listening).await;
                if let Some(line) = report_for_outcome("127.0.0.1", port, outcome) {
                    reports.lock().unwrap().push(line);
                }
            }
        }));
    }
    for h in handles {
        h.await.unwrap();
    }
    let probed = probed.lock().unwrap().clone();
    let reports = reports.lock().unwrap().clone();
    (probed, reports)
}

#[test]
fn end_to_end_listener_reported_exactly_once() {
    let rt = tokio::runtime::Builder::new_multi_thread()
        .enable_all()
        .build()
        .unwrap();
    rt.block_on(async {
        let (mut probed, reports) = scan("8000-8100", 4, vec![8080]).await;

        // every one of the 101 ports is probed exactly once
        probed.sort();
        let expected: Vec<u16> = (8000..=8100).collect();
        assert_eq!(probed, expected);

        // the listening port is reported exactly once; nothing else is
        assert_eq!(reports, vec![String::from("127.0.0.1: Port 8080 is open")]);
    });
}

#[test]
fn every_port_probed_exactly_once_whatever_the_worker_count() {
    let rt = tokio::runtime::Builder::new_multi_thread()
        .enable_all()
        .build()
        .unwrap();
    rt.block_on(async {
        let expected: Vec<u16> = (100..=160).collect();
        for workers in [1, 3, 8, 64] {
            let (mut probed, _) = scan("100-160", workers, Vec::new()).await;
            probed.sort();
            assert_eq!(probed, expected);
        }
    });
}

#[test]
fn scanning_twice_reports_the_same_set() {
    let rt = tokio::runtime::Builder::new_multi_thread()
        .enable_all()
        .build()
        .unwrap();
    rt.block_on(async {
        let listening = vec![8443, 8445];
        let (_, mut first) = scan("8440-8450", 3, listening.clone()).await;
        let (_, mut second) = scan("8440-8450", 5, listening).await;
        first.sort();
        second.sort();
        assert_eq!(first, second);
        assert_eq!(first.len(), 2);
    });
}
