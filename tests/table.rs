use std::collections::HashMap;

use bandwidth_tracker::table::get_table_data_per_process;
use bandwidth_tracker::tracker::BandwidthTracker;

#[test]
fn rows_of_named_fresh_processes_in_pid_order() {
    let mut t = BandwidthTracker::new();
    t.ingest(&vec![(9, 100, 50), (4, 0, 0), (6, 0, 0)], 0);
    t.ingest(&vec![(9, 1100, 150), (4, 4000, 2000)], 1000);
    let mut names = HashMap::new();
    names.insert(9, "curl".to_string());
    names.insert(6, "idle".to_string());
    names.insert(4, "ssh".to_string());
    let rows = get_table_data_per_process(&t, 5000, 1000, &names);
    assert_eq!(rows.len(), 2);
    assert_eq!(rows[0].pid, 4);
    assert_eq!(rows[0].name, "ssh");
    assert_eq!(rows[0].received.per_second(), 4000);
    assert_eq!(rows[0].send.per_second(), 2000);
    assert_eq!(rows[0].total_received.count(), 4000);
    assert_eq!(rows[0].total_send.count(), 2000);
    assert_eq!(rows[1].pid, 9);
    assert_eq!(rows[1].name, "curl");
    assert_eq!(rows[1].received.per_second(), 1000);
    assert_eq!(rows[1].send.per_second(), 100);
    assert_eq!(rows[1].total_received.count(), 1100);
}

#[test]
fn unnamed_processes_are_left_out() {
    let mut t = BandwidthTracker::new();
    t.ingest(&vec![(1, 10, 10), (2, 20, 20)], 0);
    let mut names = HashMap::new();
    names.insert(2, "nginx".to_string());
    let rows = get_table_data_per_process(&t, 1000, 0, &names);
    assert_eq!(rows.len(), 1);
    assert_eq!(rows[0].pid, 2);
    assert_eq!(rows[0].received.per_second(), 0);
}
