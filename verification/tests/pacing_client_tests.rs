//! Poll pacing arithmetic and the client loop's helpers.

use slipstream::client::coalesce_writes;
use slipstream::client::compute_mtu;
use slipstream::client::loop_timeout_us;
use slipstream::client::pending_for_sleep;
use slipstream::client::StreamTable;
use slipstream::client::StreamWrite;
use slipstream::config::ResolverMode;
use slipstream::pacing::cwnd_target_polls;
use slipstream::pacing::inflight_packet_estimate;
use slipstream::pacing::pending_poll_target;
use slipstream::quic::BiStream;
use slipstream::quic::PathEvent;
use slipstream::resolver::apply_path_event;
use slipstream::resolver::drain_path_events;
use slipstream::resolver::expire_inflight_polls;
use slipstream::resolver::loop_burst_total;
use slipstream::resolver::path_poll_burst_max;
use slipstream::resolver::resolve_resolvers;
use slipstream::assoc::AssocTable;
use slipstream::config::AddressFamily;
use slipstream::config::HostPort;
use slipstream::config::ResolverSpec;

fn states(modes: &[ResolverMode]) -> Vec<slipstream::resolver::ResolverState> {
    let specs: Vec<ResolverSpec> = modes
        .iter()
        .enumerate()
        .map(|(i, mode)| ResolverSpec {
            resolver: HostPort {
                host: format!("10.0.0.{}", i + 1),
                port: 53,
                family: AddressFamily::V4,
            },
            mode: *mode,
        })
        .collect();
    resolve_resolvers(&specs, 900, false).expect("specs resolve")
}

#[test]
fn poll_budget_examples() {
    // cwnd of 9000 over an MTU of 1200 asks for ceil(7.5) = 8 polls
    assert_eq!(cwnd_target_polls(9000, 1200), 8);
    // 3600 bytes in flight occupy 3 packets
    assert_eq!(inflight_packet_estimate(3600, 1200), 3);
    // so the path still owes 5 polls
    assert_eq!(pending_poll_target(9000, 3600, 1200), 5);
    assert_eq!(
        pending_for_sleep(ResolverMode::Authoritative, 0, 9000, 3600, 1200),
        5
    );
    assert_eq!(pending_for_sleep(ResolverMode::Recursive, 3, 9000, 3600, 1200), 3);
}

#[test]
fn poll_budget_never_below_one() {
    assert_eq!(cwnd_target_polls(0, 1200), 1);
    assert_eq!(cwnd_target_polls(1, 1200), 1);
    // an exact multiple of the MTU asks for exactly that many polls
    assert_eq!(cwnd_target_polls(5 * 1200, 1200), 5);
    assert_eq!(cwnd_target_polls(1200, 1), 1200);
}

#[test]
fn loop_timeouts_clamp() {
    assert_eq!(loop_timeout_us(0, true), 1);
    assert_eq!(loop_timeout_us(25_000, true), 25_000);
    assert_eq!(loop_timeout_us(80_000, true), 50_000);
    assert_eq!(loop_timeout_us(0, false), 1);
    assert_eq!(loop_timeout_us(10_000_000, false), 10_000_000);
}

#[test]
fn mtu_leaves_room_for_the_domain() {
    assert_eq!(compute_mtu(11).unwrap(), 1189);
    assert_eq!(compute_mtu(0).unwrap(), 1200);
    assert!(compute_mtu(1200).is_err());
}

#[test]
fn authoritative_paths_get_four_times_the_burst() {
    let rs = states(&[ResolverMode::Recursive, ResolverMode::Authoritative]);
    assert_eq!(loop_burst_total(&rs, 64), 64 + 256);
    assert_eq!(path_poll_burst_max(&rs[0]), 64);
    assert_eq!(path_poll_burst_max(&rs[1]), 256);
}

#[test]
fn path_events_install_and_reset() {
    let mut rs = states(&[ResolverMode::Recursive, ResolverMode::Authoritative]);
    // the primary is installed from the start; the secondary waits
    assert!(rs[0].added);
    assert!(!rs[1].added);

    apply_path_event(&mut rs, &PathEvent::Available(7));
    assert!(rs[1].added);
    assert_eq!(rs[1].path_id, Some(7));

    apply_path_event(&mut rs, &PathEvent::QualityChanged(7));
    assert!(rs[1].added);

    apply_path_event(&mut rs, &PathEvent::Deleted(7));
    assert!(!rs[1].added);
    assert_eq!(rs[1].path_id, None);
    assert_eq!(rs[1].pending_polls, 0);

    // a batch applies in order: delete the primary, then reinstall
    drain_path_events(&mut rs, &[PathEvent::Deleted(0), PathEvent::Available(9)]);
    assert!(rs[0].added);
    assert_eq!(rs[0].path_id, Some(9));
}

#[test]
fn inflight_polls_expire_after_five_seconds() {
    let mut polls: AssocTable<u64> = AssocTable::new();
    polls.insert_fresh(1, 1_000_000);
    polls.insert_fresh(2, 4_000_000);
    polls.insert_fresh(3, 9_000_000);
    // at t = 9.5 s, entries sent at or before 4.5 s are expired
    expire_inflight_polls(&mut polls, 9_500_000);
    assert_eq!(polls.len(), 1);
    assert!(polls.find(3).is_some());
    assert!(polls.find(1).is_none());
    assert!(polls.find(2).is_none());
}

#[test]
fn stream_table_counts() {
    let mut table = StreamTable::new();
    assert_eq!(table.len(), 0);
    table.insert_stream(4);
    table.insert_stream(8);
    assert_eq!(table.len(), 2);
    assert!(table.contains(4));
    table.record_tx(4, 100);
    table.record_drained(4, 25);
    table.remove_stream(8);
    assert_eq!(table.len(), 1);
    assert!(!table.contains(8));
    // removing an unknown stream changes nothing
    table.remove_stream(99);
    assert_eq!(table.len(), 1);
}

#[test]
fn coalescing_gathers_until_full_or_fin() {
    let msgs = vec![
        StreamWrite::Data(vec![1, 2, 3]),
        StreamWrite::Data(vec![4, 5]),
        StreamWrite::Data(vec![6]),
    ];
    let (buf, consumed, fin) = coalesce_writes(&msgs, 100);
    assert_eq!(buf, vec![1, 2, 3, 4, 5, 6]);
    assert_eq!(consumed, 3);
    assert!(!fin);

    // the budget stops the gathering once reached
    let (buf, consumed, fin) = coalesce_writes(&msgs, 4);
    assert_eq!(buf, vec![1, 2, 3, 4, 5]);
    assert_eq!(consumed, 2);
    assert!(!fin);

    // a fin is consumed and reported
    let msgs = vec![StreamWrite::Data(vec![1]), StreamWrite::Fin, StreamWrite::Data(vec![2])];
    let (buf, consumed, fin) = coalesce_writes(&msgs, 100);
    assert_eq!(buf, vec![1]);
    assert_eq!(consumed, 2);
    assert!(fin);
}

#[test]
fn stream_handles_carry_their_id() {
    let bi = BiStream::new(44);
    assert_eq!(bi.stream_id(), 44);
    assert_eq!(bi.send.stream_id(), 44);
    assert_eq!(bi.recv.stream_id(), 44);
    let mut send = bi.send;
    assert!(send.reset(0x105).is_ok());
    let mut recv = bi.recv;
    assert!(recv.stop(0x105).is_ok());
}
