//! The per-process table that the monitor shows: one row per process that
//! reported in the latest snapshot and whose name is known.

use std::collections::HashMap;
use vstd::prelude::*;

use crate::bytes::{BytesPerSecond, NumberOfBytes};
use crate::tracker::{is_throughput_report, BandwidthTracker, Pid, TrackingTick};

verus! {

broadcast use vstd::std_specs::hash::group_hash_axioms;

/// One line of the table.
#[derive(Debug)]
pub struct ProcessRow {
    pub pid: Pid,
    pub name: String,
    pub send: BytesPerSecond,
    pub received: BytesPerSecond,
    pub total_send: NumberOfBytes,
    pub total_received: NumberOfBytes,
}

/// The rows for the report `rep`, in its order, of the processes that
/// `names` knows, with their totals from `h`.
pub open spec fn named_rows(
    rep: Seq<(Pid, BytesPerSecond, BytesPerSecond)>,
    names: Map<Pid, String>,
    h: Map<Pid, Seq<TrackingTick>>,
) -> Seq<ProcessRow>
    decreases rep.len(),
{
    if rep.len() == 0 {
        Seq::empty()
    } else {
        let rest = named_rows(rep.drop_last(), names, h);
        let e = rep.last();
        if names.contains_key(e.0) {
            rest.push(
                ProcessRow {
                    pid: e.0,
                    name: names[e.0],
                    send: e.2,
                    received: e.1,
                    total_send: h[e.0].last().send,
                    total_received: h[e.0].last().received,
                },
            )
        } else {
            rest
        }
    }
}

/// The table over the last `window` milliseconds at `now`: a row for each
/// process of the throughput report whose name `names` holds, in pid order;
/// processes without a known name are left out.
pub fn get_table_data_per_process(
    tracker: &BandwidthTracker,
    window: u64,
    now: u64,
    names: &HashMap<Pid, String>,
) -> (r: Vec<ProcessRow>)
    requires
        tracker.wf(),
    ensures
        exists|rep: Seq<(Pid, BytesPerSecond, BytesPerSecond)>|
            #[trigger] is_throughput_report(rep, tracker.histories(), tracker.last_tick(), window, now)
                && r@ == named_rows(rep, names@, tracker.histories()),
{
    let report = tracker.get_throughput_over_duration(window, now);
    let mut rows: Vec<ProcessRow> = Vec::new();
    let mut i: usize = 0;
    while i < report.len()
        invariant
            i <= report@.len(),
            tracker.wf(),
            is_throughput_report(report@, tracker.histories(), tracker.last_tick(), window, now),
            rows@ == named_rows(report@.subrange(0, i as int), names@, tracker.histories()),
        decreases report@.len() - i,
    {
        let (pid, received, send) = report[i];
        proof {
            assert(report@.subrange(0, i + 1).drop_last() =~= report@.subrange(0, i as int));
            assert(crate::tracker::is_report_entry(
                report@[i as int],
                tracker.histories(),
                tracker.last_tick(),
                window,
                now,
            ));
        }
        match names.get(&pid) {
            Some(name) => {
                let total_send = match tracker.get_nbr_of_bytes_send_since_monitoring_started(pid) {
                    Some(n) => n,
                    None => NumberOfBytes::new(0),
                };
                let total_received =
                    match tracker.get_nbr_of_bytes_received_since_monitoring_started(pid) {
                    Some(n) => n,
                    None => NumberOfBytes::new(0),
                };
                rows.push(
                    ProcessRow { pid, name: name.clone(), send, received, total_send, total_received },
                );
            },
            None => {},
        }
        i = i + 1;
    }
    assert(report@.subrange(0, report@.len() as int) =~= report@);
    rows
}

} // verus!
