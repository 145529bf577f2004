//! The worker that gathers jobs and sends them to the router.

use mikrotik_api::mikrotik_api::{other_err, AddOutcome, ApiError};
use mikrotik_api::plugin::ResolvedJob;
use mikrotik_api::smartdns::{DNS_T_A, DNS_T_AAAA};
use mikrotik_api::worker::{Phase, Worker, WorkerEvent};

const SECOND: u64 = 1_000_000_000;

fn job(group: &str, ip: &str, ttl: u32, qtype: i32, domain: &str) -> WorkerEvent {
    WorkerEvent::Job(ResolvedJob {
        domain: domain.to_string(),
        group: group.to_string(),
        ip: ip.to_string(),
        ttl,
        qtype,
    })
}

fn add(worker: &mut Worker, ip: &str, ttl: u32) {
    worker.step(job("g", ip, ttl, DNS_T_A, "d"));
}

fn sent(worker: &Worker) -> Vec<String> {
    worker
        .chunk()
        .iter()
        .map(|e| format!("{} {} {} {} {}", e.ip_path, e.list, e.address, e.ttl, e.domain))
        .collect()
}

fn added(count: usize) -> WorkerEvent {
    let mut results: Vec<Result<AddOutcome, ApiError>> = Vec::new();
    for i in 0..count {
        results.push(Ok(if i % 2 == 0 { AddOutcome::Added } else { AddOutcome::Duplicate }));
    }
    WorkerEvent::Results(results)
}

/// A worker that is connected and remembers 1.1.1.1 with 60 seconds at time 0.
fn connected() -> Worker {
    let mut worker = Worker::new();
    add(&mut worker, "1.1.1.1", 60);
    worker.step(WorkerEvent::Deadline(0));
    assert_eq!(worker.phase(), Phase::Connecting);
    worker.step(WorkerEvent::Connected);
    assert_eq!(worker.phase(), Phase::Sending);
    worker.step(added(1));
    assert_eq!(worker.phase(), Phase::Settling);
    worker.step(WorkerEvent::Clock(0, 0));
    assert_eq!(worker.phase(), Phase::Collecting);
    worker
}

#[test]
fn nothing_gathered_sends_nothing() {
    let mut worker = Worker::new();
    assert_eq!(worker.phase(), Phase::Collecting);
    worker.step(WorkerEvent::Deadline(5));
    assert_eq!(worker.phase(), Phase::Collecting);
    assert_eq!(worker.evicted(), 0);
}

#[test]
fn closed_queue_stops_the_worker() {
    let mut worker = Worker::new();
    worker.step(WorkerEvent::Closed);
    assert_eq!(worker.phase(), Phase::Stopped);
    worker.step(WorkerEvent::Deadline(1));
    worker.step(WorkerEvent::Slept);
    assert_eq!(worker.phase(), Phase::Stopped);
}

#[test]
fn list_is_group_and_timeout_is_ttl() {
    let mut worker = Worker::new();
    worker.step(job("proxy", "93.184.216.34", 300, DNS_T_A, "example.com"));
    worker.step(job("six", "2001:db8::1", 60, DNS_T_AAAA, "example.org"));
    worker.step(WorkerEvent::Deadline(0));
    worker.step(WorkerEvent::Connected);
    assert_eq!(
        sent(&worker),
        vec![
            "/ip/firewall/address-list proxy 93.184.216.34 300 example.com",
            "/ipv6/firewall/address-list six 2001:db8::1 60 example.org",
        ]
    );
}

#[test]
fn batch_keeps_the_longest_ttl() {
    let mut worker = Worker::new();
    worker.step(job("g", "1.1.1.1", 10, DNS_T_A, "first"));
    worker.step(job("g", "2.2.2.2", 50, DNS_T_A, "other"));
    worker.step(job("g", "1.1.1.1", 30, DNS_T_AAAA, "longest"));
    worker.step(job("g", "1.1.1.1", 30, DNS_T_A, "as long"));
    worker.step(job("g", "1.1.1.1", 20, DNS_T_A, "shorter"));
    worker.step(job("h", "1.1.1.1", 5, DNS_T_A, "other list"));
    worker.step(WorkerEvent::Deadline(0));
    worker.step(WorkerEvent::Connected);
    assert_eq!(
        sent(&worker),
        vec![
            "/ip/firewall/address-list g 1.1.1.1 30 longest",
            "/ip/firewall/address-list g 2.2.2.2 50 other",
            "/ip/firewall/address-list h 1.1.1.1 5 other list",
        ]
    );
}

#[test]
fn short_ttls_are_skipped() {
    let mut worker = Worker::new();
    add(&mut worker, "1.1.1.0", 0);
    add(&mut worker, "1.1.1.2", 2);
    worker.step(WorkerEvent::Deadline(0));
    assert_eq!(worker.phase(), Phase::Collecting);
    add(&mut worker, "1.1.1.2", 2);
    add(&mut worker, "1.1.1.3", 3);
    worker.step(WorkerEvent::Deadline(0));
    worker.step(WorkerEvent::Connected);
    assert_eq!(sent(&worker), vec!["/ip/firewall/address-list g 1.1.1.3 3 d"]);
}

#[test]
fn confirmed_entry_is_not_sent_again_while_it_lasts() {
    let mut worker = connected();
    add(&mut worker, "1.1.1.1", 60);
    worker.step(WorkerEvent::Deadline(SECOND - 1));
    assert_eq!(worker.phase(), Phase::Collecting);
    add(&mut worker, "1.1.1.1", 50);
    worker.step(WorkerEvent::Deadline(10 * SECOND));
    assert_eq!(worker.phase(), Phase::Collecting);
    add(&mut worker, "1.1.1.1", 50);
    worker.step(WorkerEvent::Deadline(11 * SECOND));
    assert_eq!(worker.phase(), Phase::Sending);
    assert_eq!(sent(&worker), vec!["/ip/firewall/address-list g 1.1.1.1 50 d"]);
}

#[test]
fn longer_ttl_is_sent_at_once() {
    let mut worker = connected();
    add(&mut worker, "1.1.1.1", 61);
    worker.step(WorkerEvent::Deadline(0));
    assert_eq!(worker.phase(), Phase::Sending);
}

#[test]
fn other_list_is_another_entry() {
    let mut worker = connected();
    worker.step(job("h", "1.1.1.1", 60, DNS_T_A, "d"));
    worker.step(WorkerEvent::Deadline(0));
    assert_eq!(worker.phase(), Phase::Sending);
}

#[test]
fn expired_entries_are_forgotten() {
    let mut worker = connected();
    add(&mut worker, "2.2.2.2", 100);
    worker.step(WorkerEvent::Deadline(59 * SECOND));
    worker.step(added(1));
    worker.step(WorkerEvent::Clock(59 * SECOND, 59 * SECOND));
    assert_eq!(worker.evicted(), 0);
    add(&mut worker, "3.3.3.3", 100);
    worker.step(WorkerEvent::Deadline(60 * SECOND));
    worker.step(added(1));
    worker.step(WorkerEvent::Clock(60 * SECOND, 60 * SECOND));
    assert_eq!(worker.evicted(), 1);
}

#[test]
fn failed_entry_is_not_remembered() {
    let mut worker = connected();
    add(&mut worker, "2.2.2.2", 60);
    add(&mut worker, "3.3.3.3", 60);
    worker.step(WorkerEvent::Deadline(0));
    let results = vec![Err(other_err("no".to_string())), Ok(AddOutcome::Duplicate)];
    worker.step(WorkerEvent::Results(results));
    assert_eq!(worker.phase(), Phase::Settling);
    worker.step(WorkerEvent::Clock(0, 0));
    assert_eq!(worker.phase(), Phase::Sleeping(1));
    worker.step(WorkerEvent::Slept);
    assert_eq!(worker.phase(), Phase::Collecting);
    add(&mut worker, "3.3.3.3", 60);
    worker.step(WorkerEvent::Deadline(0));
    assert_eq!(worker.phase(), Phase::Collecting);
    add(&mut worker, "2.2.2.2", 60);
    worker.step(WorkerEvent::Deadline(0));
    assert_eq!(worker.phase(), Phase::Connecting);
}

#[test]
fn reconnecting_forgets_what_was_confirmed() {
    let mut worker = connected();
    add(&mut worker, "2.2.2.2", 60);
    worker.step(WorkerEvent::Deadline(0));
    worker.step(WorkerEvent::Results(vec![Err(other_err("no".to_string()))]));
    worker.step(WorkerEvent::Clock(0, 0));
    worker.step(WorkerEvent::Slept);
    add(&mut worker, "2.2.2.2", 60);
    worker.step(WorkerEvent::Deadline(0));
    worker.step(WorkerEvent::Connected);
    worker.step(added(1));
    worker.step(WorkerEvent::Clock(0, 0));
    add(&mut worker, "1.1.1.1", 60);
    worker.step(WorkerEvent::Deadline(0));
    assert_eq!(worker.phase(), Phase::Sending);
}

#[test]
fn delay_doubles_up_to_thirty_seconds() {
    let mut worker = Worker::new();
    for delay in [1, 2, 4, 8, 16, 30, 30] {
        add(&mut worker, "1.1.1.1", 60);
        worker.step(WorkerEvent::Deadline(0));
        assert_eq!(worker.phase(), Phase::Connecting);
        worker.step(WorkerEvent::ConnectFailed);
        assert_eq!(worker.phase(), Phase::Sleeping(delay));
        worker.step(WorkerEvent::Slept);
        assert_eq!(worker.phase(), Phase::Collecting);
    }
    worker.step(WorkerEvent::Deadline(0));
    assert_eq!(worker.phase(), Phase::Collecting);
    add(&mut worker, "1.1.1.1", 60);
    worker.step(WorkerEvent::Deadline(0));
    worker.step(WorkerEvent::Connected);
    worker.step(WorkerEvent::Results(vec![Err(other_err("no".to_string()))]));
    worker.step(WorkerEvent::Clock(0, 0));
    assert_eq!(worker.phase(), Phase::Sleeping(1));
}

#[test]
fn entries_are_sent_in_chunks() {
    let mut worker = Worker::new();
    for i in 0..130 {
        add(&mut worker, &format!("1.1.1.{}", i), 60);
    }
    worker.step(WorkerEvent::Deadline(0));
    worker.step(WorkerEvent::Connected);
    let mut all: Vec<String> = Vec::new();
    for size in [64, 64, 2] {
        assert_eq!(worker.phase(), Phase::Sending);
        let chunk = sent(&worker);
        assert_eq!(chunk.len(), size);
        all.extend(chunk);
        worker.step(added(size));
    }
    assert_eq!(worker.phase(), Phase::Settling);
    for i in 0..130 {
        assert_eq!(all[i], format!("/ip/firewall/address-list g 1.1.1.{} 60 d", i));
    }
    worker.step(WorkerEvent::Clock(0, 0));
    for i in 0..130 {
        add(&mut worker, &format!("1.1.1.{}", i), 60);
    }
    worker.step(WorkerEvent::Deadline(0));
    assert_eq!(worker.phase(), Phase::Collecting);
}

#[test]
fn error_ends_the_sending() {
    let mut worker = Worker::new();
    for i in 0..130 {
        add(&mut worker, &format!("1.1.1.{}", i), 60);
    }
    worker.step(WorkerEvent::Deadline(0));
    worker.step(WorkerEvent::Connected);
    worker.step(added(64));
    let mut results: Vec<Result<AddOutcome, ApiError>> = Vec::new();
    for i in 0..64 {
        results.push(if i == 63 {
            Err(other_err("no".to_string()))
        } else {
            Ok(AddOutcome::Added)
        });
    }
    worker.step(WorkerEvent::Results(results));
    assert_eq!(worker.phase(), Phase::Settling);
    worker.step(WorkerEvent::Clock(0, 0));
    assert_eq!(worker.phase(), Phase::Sleeping(1));
    worker.step(WorkerEvent::Slept);
    for i in 0..127 {
        add(&mut worker, &format!("1.1.1.{}", i), 60);
    }
    worker.step(WorkerEvent::Deadline(0));
    assert_eq!(worker.phase(), Phase::Collecting);
    add(&mut worker, "1.1.1.127", 60);
    worker.step(WorkerEvent::Deadline(0));
    assert_eq!(worker.phase(), Phase::Connecting);
}

#[test]
fn events_that_a_phase_does_not_wait_for_are_ignored() {
    let mut worker = Worker::new();
    worker.step(WorkerEvent::Connected);
    worker.step(added(3));
    worker.step(WorkerEvent::Clock(1, 1));
    assert_eq!(worker.phase(), Phase::Collecting);
    add(&mut worker, "1.1.1.1", 60);
    worker.step(WorkerEvent::Deadline(0));
    worker.step(WorkerEvent::Deadline(0));
    worker.step(WorkerEvent::Closed);
    assert_eq!(worker.phase(), Phase::Connecting);
}

#[test]
fn seconds_are_counted_modulo_the_width_of_a_ttl() {
    let mut worker = connected();
    add(&mut worker, "1.1.1.1", 60);
    worker.step(WorkerEvent::Deadline(0x1_0000_0000 * SECOND));
    assert_eq!(worker.phase(), Phase::Collecting);
}
