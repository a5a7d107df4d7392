use bandwidth_tracker::bytes::NumberOfBytes;
use bandwidth_tracker::snapshot::decode_snapshot;
use bandwidth_tracker::tracker::BandwidthTracker;

#[test]
fn two_ticks_give_the_received_rate() {
    let mut t = BandwidthTracker::new();
    t.ingest(&vec![(42, 1000, 10)], 0);
    t.ingest(&vec![(42, 2300, 30)], 2000);
    let report = t.get_throughput_over_duration(2000, 2000);
    assert_eq!(report.len(), 1);
    assert_eq!(report[0].0, 42);
    assert_eq!(report[0].1.per_second(), 650);
    assert_eq!(report[0].2.per_second(), 10);
}

#[test]
fn single_sample_gives_zero_rate() {
    let mut t = BandwidthTracker::new();
    t.ingest(&vec![(7, 5000, 5000)], 100);
    let report = t.get_throughput_over_duration(5000, 100);
    assert_eq!(report.len(), 1);
    assert_eq!(report[0].1.per_second(), 0);
    assert_eq!(report[0].2.per_second(), 0);
}

#[test]
fn absent_pid_answers_totals_until_the_tenth_tick() {
    let mut t = BandwidthTracker::new();
    t.ingest(&vec![(1, 111, 222), (2, 5, 6)], 1000);
    for tick in 2..=9u64 {
        t.ingest(&vec![(2, 5, 6)], tick * 1000);
        assert_eq!(
            t.get_nbr_of_bytes_received_since_monitoring_started(1),
            Some(NumberOfBytes::from(111))
        );
        assert_eq!(
            t.get_nbr_of_bytes_send_since_monitoring_started(1),
            Some(NumberOfBytes::from(222))
        );
    }
    t.ingest(&vec![(2, 5, 6)], 10000);
    assert_eq!(t.get_nbr_of_bytes_received_since_monitoring_started(1), None);
    assert_eq!(t.get_nbr_of_bytes_send_since_monitoring_started(1), None);
    assert_eq!(
        t.get_nbr_of_bytes_received_since_monitoring_started(2),
        Some(NumberOfBytes::from(5))
    );
}

#[test]
fn same_timestamp_gives_zero_rate() {
    let mut t = BandwidthTracker::new();
    t.ingest(&vec![(3, 100, 100)], 500);
    t.ingest(&vec![(3, 900, 400)], 500);
    let report = t.get_throughput_over_duration(1000, 500);
    assert_eq!(report.len(), 1);
    assert_eq!(report[0].1.per_second(), 0);
    assert_eq!(report[0].2.per_second(), 0);
}

#[test]
fn unseen_pid_is_never_reported() {
    let mut t = BandwidthTracker::new();
    for tick in 1..=12u64 {
        t.ingest(&vec![(10, tick as i32, 0), (11, 0, tick as i32)], tick * 100);
        let report = t.get_throughput_over_duration(1000, tick * 100);
        assert!(report.iter().all(|e| e.0 != 99));
        assert_eq!(t.get_nbr_of_bytes_received_since_monitoring_started(99), None);
    }
}

#[test]
fn stale_pid_is_left_out_of_the_report() {
    let mut t = BandwidthTracker::new();
    t.ingest(&vec![(1, 0, 0), (2, 0, 0)], 1000);
    t.ingest(&vec![(2, 100, 0)], 2000);
    let report = t.get_throughput_over_duration(5000, 2000);
    assert_eq!(report.len(), 1);
    assert_eq!(report[0].0, 2);
    assert_eq!(report[0].1.per_second(), 100);
    // still tracked until the prune pass
    assert_eq!(
        t.get_nbr_of_bytes_received_since_monitoring_started(1),
        Some(NumberOfBytes::from(0))
    );
}

#[test]
fn report_is_ordered_by_pid_and_repeatable() {
    let mut t = BandwidthTracker::new();
    t.ingest(&vec![(30, 0, 0), (-4, 0, 0), (12, 0, 0)], 0);
    t.ingest(&vec![(12, 1000, 0), (30, 3000, 0), (-4, 2000, 0)], 1000);
    let first = t.get_throughput_over_duration(1000, 1000);
    let second = t.get_throughput_over_duration(1000, 1000);
    assert_eq!(first, second);
    let pids: Vec<i32> = first.iter().map(|e| e.0).collect();
    assert_eq!(pids, vec![-4, 12, 30]);
    assert_eq!(first[0].1.per_second(), 2000);
    assert_eq!(first[1].1.per_second(), 1000);
    assert_eq!(first[2].1.per_second(), 3000);
}

#[test]
fn window_stops_at_first_sample_older_than_it() {
    let mut t = BandwidthTracker::new();
    t.ingest(&vec![(5, 0, 0)], 0);
    t.ingest(&vec![(5, 1000, 0)], 1000);
    t.ingest(&vec![(5, 3000, 0)], 2000);
    t.ingest(&vec![(5, 6000, 0)], 3000);
    // window 1500 at 3000: scan 3000 (age 0), 2000 (age 1000), 1000 (age 2000, older: kept, stop)
    let report = t.get_throughput_over_duration(1500, 3000);
    assert_eq!(report[0].1.per_second(), (6000 - 1000) * 1000 / 2000);
    // a window deeper than the history uses the oldest sample
    let report = t.get_throughput_over_duration(1_000_000, 3000);
    assert_eq!(report[0].1.per_second(), 2000);
    // the newest sample already older than the window: zero
    let report = t.get_throughput_over_duration(10, 5000);
    assert_eq!(report[0].1.per_second(), 0);
}

#[test]
fn history_depth_bounds_the_window() {
    let mut t = BandwidthTracker::new();
    for tick in 0..300u64 {
        t.ingest(&vec![(1, (tick * 10) as i32, 0)], tick * 1000);
    }
    // 255 samples kept: ticks 45..=299
    let report = t.get_throughput_over_duration(u64::MAX, 299_000);
    assert_eq!(report[0].1.per_second(), 10);
    assert_eq!(
        t.get_nbr_of_bytes_received_since_monitoring_started(1),
        Some(NumberOfBytes::from(2990))
    );
}

#[test]
fn raw_records_are_decoded_and_bad_ones_skipped() {
    let mut value = 1000i32.to_ne_bytes().to_vec();
    value.extend_from_slice(&20i32.to_ne_bytes());
    let records = vec![
        (77i32.to_ne_bytes().to_vec(), Some(value.clone())),
        (vec![1, 2, 3], Some(value.clone())),
        (78i32.to_ne_bytes().to_vec(), None),
        (79i32.to_ne_bytes().to_vec(), Some(vec![0; 7])),
    ];
    assert_eq!(decode_snapshot(&records), vec![(77, 1000, 20)]);

    let mut t = BandwidthTracker::new();
    t.refresh_tick(&records, 0);
    assert_eq!(
        t.get_nbr_of_bytes_received_since_monitoring_started(77),
        Some(NumberOfBytes::from(1000))
    );
    assert_eq!(
        t.get_nbr_of_bytes_send_since_monitoring_started(77),
        Some(NumberOfBytes::from(20))
    );
    assert_eq!(t.get_nbr_of_bytes_received_since_monitoring_started(78), None);
}

#[test]
fn prune_pass_forgets_only_stale_processes() {
    let mut t = BandwidthTracker::new();
    t.ingest(&vec![(1, 10, 10), (2, 20, 20)], 1000);
    t.ingest(&vec![(2, 30, 30)], 2000);
    t.clear_dead_entries();
    assert_eq!(t.get_nbr_of_bytes_received_since_monitoring_started(1), None);
    assert_eq!(
        t.get_nbr_of_bytes_received_since_monitoring_started(2),
        Some(NumberOfBytes::from(30))
    );
}

#[test]
fn last_tick_is_the_latest_snapshot_time() {
    let mut t = BandwidthTracker::new();
    assert_eq!(t.get_last_tick(), 0);
    t.ingest(&vec![(1, 0, 0)], 1500);
    assert_eq!(t.get_last_tick(), 1500);
    t.ingest(&vec![], 1500);
    assert_eq!(t.get_last_tick(), 1500);
}

#[test]
fn fresh_processes_are_those_of_the_latest_snapshot() {
    let mut t = BandwidthTracker::new();
    t.ingest(&vec![(1, 0, 0), (2, 0, 0), (3, 0, 0)], 100);
    t.ingest(&vec![(3, 50, 0), (1, 50, 0)], 200);
    let pids: Vec<i32> = t.get_throughput_over_duration(1000, 200).iter().map(|e| e.0).collect();
    assert_eq!(pids, vec![1, 3]);
}
