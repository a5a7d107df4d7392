//! Per-process histories of cumulative byte counters, fed one snapshot per
//! tick, and the rate and total queries answered from them.

use std::collections::HashMap;
use vstd::prelude::*;
use vstd::std_specs::iter::IteratorSpec;

use crate::bytes::{rate_of, BytesPerSecond, NumberOfBytes};
use crate::history_buffer::{pushed, HistoryBuffer};
use crate::snapshot::{decode_snapshot, is_decoding_of, RawRecord};

verus! {

broadcast use vstd::std_specs::hash::group_hash_axioms;

/// Process identifier, the key of every history.
pub type Pid = i32;

/// How many samples each process keeps.
pub const HISTORY_DEPTH: usize = 255;

/// Every this many ticks, processes missing from the latest snapshot are
/// forgotten.
pub const PRUNE_PERIOD: u32 = 10;

/// One sample of a process: its cumulative counters and when they were read,
/// in milliseconds.
#[derive(Clone, Copy, Debug, PartialEq, Eq, Structural)]
pub struct TrackingTick {
    pub received: NumberOfBytes,
    pub send: NumberOfBytes,
    pub at: u64,
}

/// The sample a snapshot entry becomes at time `now`.
pub open spec fn sample_of(received: i32, sent: i32, now: u64) -> TrackingTick {
    TrackingTick { received: NumberOfBytes(received as i64), send: NumberOfBytes(sent as i64), at: now }
}

/// Counters that a 32-bit instrumentation layer can report.
pub open spec fn fits_i32(t: TrackingTick) -> bool {
    &&& i32::MIN <= t.received@ <= i32::MAX
    &&& i32::MIN <= t.send@ <= i32::MAX
}

/// Whether the samples of `h` were taken in non-decreasing time order.
pub open spec fn is_time_ordered(h: Seq<TrackingTick>) -> bool {
    forall|i: int, j: int| 0 <= i <= j < h.len() ==> (#[trigger] h[i]).at <= (#[trigger] h[j]).at
}

/// A time-ordered history stays so when a sample no older than its newest
/// one is added, and that sample becomes its newest.
pub proof fn lemma_pushed_keeps_time_order(h: Seq<TrackingTick>, t: TrackingTick)
    requires
        h.len() > 0,
        is_time_ordered(h),
        h.last().at <= t.at,
    ensures
        is_time_ordered(pushed(h, t, HISTORY_DEPTH as nat)),
        pushed(h, t, HISTORY_DEPTH as nat).last() == t,
{
    let g = pushed(h, t, HISTORY_DEPTH as nat);
    if h.len() < HISTORY_DEPTH {
        assert forall|i: int, j: int| 0 <= i <= j < g.len() implies (#[trigger] g[i]).at
            <= (#[trigger] g[j]).at by {
            if j < h.len() {
                assert(g[i] == h[i] && g[j] == h[j]);
            } else if i < h.len() {
                assert(h[i].at <= h[h.len() - 1].at);
            }
        }
    } else {
        assert forall|i: int, j: int| 0 <= i <= j < g.len() implies (#[trigger] g[i]).at
            <= (#[trigger] g[j]).at by {
            assert(g[i] == if i < h.len() - 1 { h[i + 1] } else { t });
            if j < h.len() - 1 {
                assert(g[j] == h[j + 1]);
                assert(h[i + 1].at <= h[j + 1].at);
            } else if i < h.len() - 1 {
                assert(h[i + 1].at <= h[h.len() - 1].at);
            }
        }
    }
}

/// `h` after `pid` reported `t`: a new history for a pid seen the first
/// time, else `t` added to its history.
pub open spec fn recorded(h: Map<Pid, Seq<TrackingTick>>, pid: Pid, t: TrackingTick) -> Map<
    Pid,
    Seq<TrackingTick>,
> {
    if h.contains_key(pid) {
        h.insert(pid, pushed(h[pid], t, HISTORY_DEPTH as nat))
    } else {
        h.insert(pid, seq![t])
    }
}

/// `h` after every entry of `snapshot`, in order, was recorded at `now`.
pub open spec fn ingested(h: Map<Pid, Seq<TrackingTick>>, snapshot: Seq<(Pid, i32, i32)>, now: u64) -> Map<
    Pid,
    Seq<TrackingTick>,
>
    decreases snapshot.len(),
{
    if snapshot.len() == 0 {
        h
    } else {
        let e = snapshot.last();
        recorded(ingested(h, snapshot.drop_last(), now), e.0, sample_of(e.1, e.2, now))
    }
}

/// The histories of `h` whose newest sample was taken at `tick`.
pub open spec fn pruned(h: Map<Pid, Seq<TrackingTick>>, tick: u64) -> Map<Pid, Seq<TrackingTick>> {
    Map::new(|p: Pid| h.contains_key(p) && h[p].last().at == tick, |p: Pid| h[p])
}

/// The tick count, modulo the prune period, after one more tick.
pub open spec fn next_count(count: nat) -> nat {
    (count + 1) % (PRUNE_PERIOD as nat)
}

/// The histories after a tick that brought `snapshot` at `now`, when
/// `count` ticks had passed since the last prune pass.
pub open spec fn after_tick(
    h: Map<Pid, Seq<TrackingTick>>,
    count: nat,
    snapshot: Seq<(Pid, i32, i32)>,
    now: u64,
) -> Map<Pid, Seq<TrackingTick>> {
    if next_count(count) == 0 {
        pruned(ingested(h, snapshot, now), now)
    } else {
        ingested(h, snapshot, now)
    }
}

/// Whether `t` is older than `window` milliseconds at time `now`.
pub open spec fn exceeds_window(t: TrackingTick, window: u64, now: u64) -> bool {
    now - t.at > window
}

/// Where a scan of `h` that starts at position `i` and walks toward the
/// oldest sample stops: at the first sample older than the window, or at the
/// oldest one.
pub open spec fn window_start(h: Seq<TrackingTick>, i: int, window: u64, now: u64) -> int
    decreases i,
{
    if i <= 0 {
        0
    } else if exceeds_window(h[i], window, now) {
        i
    } else {
        window_start(h, i - 1, window, now)
    }
}

/// The received and sent rates over the window that ends with the newest
/// sample of `h`: from the oldest scanned sample to the newest one, or zero
/// when the scan found the newest sample alone.
pub open spec fn window_rates(h: Seq<TrackingTick>, window: u64, now: u64) -> (int, int) {
    let last = h.len() - 1;
    let first = window_start(h, last, window, now);
    if first < last {
        (
            rate_of(h[last].received@ - h[first].received@, h[last].at - h[first].at),
            rate_of(h[last].send@ - h[first].send@, h[last].at - h[first].at),
        )
    } else {
        (0, 0)
    }
}

/// Whether `pid` is tracked in `h` and appeared in the snapshot of `tick`.
pub open spec fn is_fresh(h: Map<Pid, Seq<TrackingTick>>, tick: u64, pid: Pid) -> bool {
    h.contains_key(pid) && h[pid].last().at == tick
}

/// Whether `e` is the report line of a fresh process: its pid, then its
/// received and sent rates over `window` at `now`.
pub open spec fn is_report_entry(
    e: (Pid, BytesPerSecond, BytesPerSecond),
    h: Map<Pid, Seq<TrackingTick>>,
    tick: u64,
    window: u64,
    now: u64,
) -> bool {
    &&& is_fresh(h, tick, e.0)
    &&& e.1@ == window_rates(h[e.0], window, now).0
    &&& e.2@ == window_rates(h[e.0], window, now).1
}

/// Whether `r` is the throughput report of `h` at last tick `tick`: one entry
/// per fresh process, ordered by pid, each with its received and sent rates
/// over `window` at `now`.
pub open spec fn is_throughput_report(
    r: Seq<(Pid, BytesPerSecond, BytesPerSecond)>,
    h: Map<Pid, Seq<TrackingTick>>,
    tick: u64,
    window: u64,
    now: u64,
) -> bool {
    &&& forall|i: int, j: int| 0 <= i < j < r.len() ==> r[i].0 < r[j].0
    &&& forall|i: int| 0 <= i < r.len() ==> is_report_entry(#[trigger] r[i], h, tick, window, now)
    &&& forall|p: Pid| #[trigger]
        is_fresh(h, tick, p) ==> exists|i: int| 0 <= i < r.len() && r[i].0 == p
}

/// Tracks, for each process, a bounded history of its byte counters.
pub struct BandwidthTracker {
    last_tick: u64,
    refresh_counter: u32,
    over_time_per_pid: HashMap<Pid, HistoryBuffer<HISTORY_DEPTH, TrackingTick>>,
}

impl BandwidthTracker {
    /// Each tracked process's samples, oldest first.
    pub closed spec fn histories(&self) -> Map<Pid, Seq<TrackingTick>> {
        self.over_time_per_pid@.map_values(|b: HistoryBuffer<HISTORY_DEPTH, TrackingTick>| b@)
    }

    /// When the latest snapshot was taken.
    pub closed spec fn last_tick(&self) -> u64 {
        self.last_tick
    }

    /// Ticks since the last prune pass, modulo the prune period.
    pub closed spec fn ticks_since_prune(&self) -> nat {
        self.refresh_counter as nat
    }

    /// Well formed, with no sample taken after `bound`.
    pub closed spec fn wf_upto(&self, bound: u64) -> bool {
        &&& self.refresh_counter < PRUNE_PERIOD
        &&& forall|p: Pid| #[trigger]
            self.over_time_per_pid@.contains_key(p) ==> {
                &&& self.over_time_per_pid@[p].wf()
                &&& is_time_ordered(self.over_time_per_pid@[p]@)
                &&& self.over_time_per_pid@[p]@.last().at <= bound
            }
        &&& forall|p: Pid, i: int| #[trigger]
            self.over_time_per_pid@.contains_key(p) && 0 <= i < self.over_time_per_pid@[p]@.len()
                ==> fits_i32(#[trigger] self.over_time_per_pid@[p]@[i])
    }

    /// Every history is non-empty, bounded, in time order and no newer than
    /// the last tick.
    pub closed spec fn wf(&self) -> bool {
        self.wf_upto(self.last_tick)
    }

    /// What a well-formed tracker guarantees about its histories.
    pub proof fn lemma_wf(&self)
        requires
            self.wf(),
        ensures
            self.ticks_since_prune() < PRUNE_PERIOD,
            forall|p: Pid| #[trigger]
                self.histories().contains_key(p) ==> {
                    &&& 0 < self.histories()[p].len() <= HISTORY_DEPTH
                    &&& is_time_ordered(self.histories()[p])
                    &&& self.histories()[p].last().at <= self.last_tick()
                },
    {
        assert forall|p: Pid| #[trigger] self.histories().contains_key(p) implies {
            &&& 0 < self.histories()[p].len() <= HISTORY_DEPTH
            &&& is_time_ordered(self.histories()[p])
            &&& self.histories()[p].last().at <= self.last_tick()
        } by {
            self.over_time_per_pid@[p].lemma_wf_bounds();
        }
    }

    /// A tracker that knows no process.
    pub fn new() -> (r: BandwidthTracker)
        ensures
            r.wf(),
            r.histories() == Map::<Pid, Seq<TrackingTick>>::empty(),
            r.last_tick() == 0,
            r.ticks_since_prune() == 0,
    {
        let r = BandwidthTracker { last_tick: 0, refresh_counter: 0, over_time_per_pid: HashMap::new() };
        assert(r.histories() =~= Map::<Pid, Seq<TrackingTick>>::empty());
        r
    }

    /// Adds `t` to the history of `pid`, starting one if there is none.
    fn record(&mut self, pid: Pid, t: TrackingTick)
        requires
            old(self).wf_upto(t.at),
            fits_i32(t),
        ensures
            final(self).wf_upto(t.at),
            final(self).histories() == recorded(old(self).histories(), pid, t),
            final(self).last_tick == old(self).last_tick,
            final(self).refresh_counter == old(self).refresh_counter,
    {
        let ghost before = self.histories();
        match self.over_time_per_pid.remove(&pid) {
            Some(mut buffer) => {
                proof {
                    buffer.lemma_wf_bounds();
                    lemma_pushed_keeps_time_order(buffer@, t);
                }
                buffer.push(t);
                self.over_time_per_pid.insert(pid, buffer);
            },
            None => {
                self.over_time_per_pid.insert(pid, HistoryBuffer::init(t));
            },
        }
        assert(self.histories() =~= recorded(before, pid, t));
    }

    /// Records every entry of `snapshot`, in order, as taken at `now`.
    fn record_all(&mut self, snapshot: &Vec<(Pid, i32, i32)>, now: u64)
        requires
            old(self).wf_upto(now),
        ensures
            final(self).wf_upto(now),
            final(self).histories() == ingested(old(self).histories(), snapshot@, now),
            final(self).last_tick == old(self).last_tick,
            final(self).refresh_counter == old(self).refresh_counter,
    {
        let ghost start = self.histories();
        let mut i: usize = 0;
        while i < snapshot.len()
            invariant
                self.wf_upto(now),
                i <= snapshot@.len(),
                self.histories() == ingested(start, snapshot@.subrange(0, i as int), now),
                self.last_tick == old(self).last_tick,
                self.refresh_counter == old(self).refresh_counter,
            decreases snapshot@.len() - i,
        {
            let (pid, received, sent) = snapshot[i];
            let t = TrackingTick {
                received: NumberOfBytes::from(received),
                send: NumberOfBytes::from(sent),
                at: now,
            };
            self.record(pid, t);
            proof {
                assert(snapshot@.subrange(0, i + 1).drop_last() =~= snapshot@.subrange(0, i as int));
            }
            i = i + 1;
        }
        assert(snapshot@.subrange(0, snapshot@.len() as int) =~= snapshot@);
    }

    /// The tracked processes whose newest sample was not taken at the last
    /// tick.
    fn stale_pids(&self) -> (r: Vec<Pid>)
        requires
            self.wf(),
        ensures
            forall|p: Pid|
                r@.contains(p) <==> (self.histories().contains_key(p) && self.histories()[p].last().at
                    != self.last_tick),
    {
        let mut r: Vec<Pid> = Vec::new();
        for entry in it: self.over_time_per_pid.iter()
            invariant
                self.wf(),
                it.seq() == self.over_time_per_pid.iter().remaining(),
                forall|p: Pid|
                    r@.contains(p) <==> exists|i: int|
                        0 <= i < it.index() && *it.seq()[i].0 == p && it.seq()[i].1@.last().at
                            != self.last_tick,
        {
            let (pid, buffer) = entry;
            assert(entry == it.seq()[it.index()]);
            proof {
                vstd::std_specs::hash::axiom_spec_hash_map_iter(&self.over_time_per_pid);
                assert(self.over_time_per_pid@.contains_key(*pid));
                assert(self.over_time_per_pid@[*pid] == *buffer);
            }
            let ghost r0 = r@;
            if buffer.last().at != self.last_tick {
                r.push(*pid);
            }
            proof {
                let seq = it.seq();
                let n = it.index();
                assert forall|p: Pid| r@.contains(p) implies exists|i: int|
                    0 <= i < n + 1 && *seq[i].0 == p && seq[i].1@.last().at != self.last_tick by {
                    if r0.contains(p) {
                    } else {
                        assert(p == *pid);
                        assert(*seq[n].0 == p);
                    }
                }
                assert forall|p: Pid|
                    (exists|i: int|
                        0 <= i < n + 1 && *seq[i].0 == p && seq[i].1@.last().at
                            != self.last_tick) implies r@.contains(p) by {
                    let i = choose|i: int|
                        0 <= i < n + 1 && *seq[i].0 == p && seq[i].1@.last().at != self.last_tick;
                    if i < n {
                        assert(r0.contains(p));
                        let j = choose|j: int| 0 <= j < r0.len() && r0[j] == p;
                        assert(r@[j] == p);
                    } else {
                        assert(r@[r@.len() - 1] == p);
                    }
                }
            }
        }
        r
    }

    /// Forgets every process that did not appear in the latest snapshot.
    pub fn clear_dead_entries(&mut self)
        requires
            old(self).wf(),
        ensures
            final(self).wf(),
            final(self).histories() == pruned(old(self).histories(), old(self).last_tick()),
            final(self).last_tick() == old(self).last_tick(),
            final(self).ticks_since_prune() == old(self).ticks_since_prune(),
    {
        let dead = self.stale_pids();
        let ghost start = self.over_time_per_pid@;
        let mut k: usize = 0;
        while k < dead.len()
            invariant
                self.wf(),
                k <= dead@.len(),
                self.last_tick == old(self).last_tick,
                self.refresh_counter == old(self).refresh_counter,
                start == old(self).over_time_per_pid@,
                forall|p: Pid|
                    dead@.contains(p) <==> (old(self).histories().contains_key(p)
                        && old(self).histories()[p].last().at != old(self).last_tick),
                forall|p: Pid| #[trigger]
                    self.over_time_per_pid@.contains_key(p) <==> (start.contains_key(p)
                        && forall|j: int| 0 <= j < k ==> dead@[j] != p),
                forall|p: Pid| #[trigger]
                    self.over_time_per_pid@.contains_key(p) ==> self.over_time_per_pid@[p]
                        == start[p],
            decreases dead@.len() - k,
        {
            let pid = dead[k];
            self.over_time_per_pid.remove(&pid);
            k = k + 1;
        }
        proof {
            assert forall|p: Pid| #[trigger]
                self.over_time_per_pid@.contains_key(p) <==> (start.contains_key(p)
                    && !dead@.contains(p)) by {
                if dead@.contains(p) {
                    let j = choose|j: int| 0 <= j < dead@.len() && dead@[j] == p;
                    assert(dead@[j] == p);
                }
            }
            assert(self.histories() =~= pruned(old(self).histories(), old(self).last_tick));
        }
    }

    /// Takes in one snapshot of `(pid, received, sent)` cumulative counters
    /// read at `now`: each entry extends its process's history, or starts one.
    /// Then `now` becomes the last tick and, every `PRUNE_PERIOD` ticks, the
    /// processes missing from this snapshot are forgotten.
    pub fn ingest(&mut self, snapshot: &Vec<(Pid, i32, i32)>, now: u64)
        requires
            old(self).wf(),
            now >= old(self).last_tick(),
        ensures
            final(self).wf(),
            final(self).histories() == after_tick(
                old(self).histories(),
                old(self).ticks_since_prune(),
                snapshot@,
                now,
            ),
            final(self).last_tick() == now,
            final(self).ticks_since_prune() == next_count(old(self).ticks_since_prune()),
    {
        self.record_all(snapshot, now);
        self.last_tick = now;
        self.refresh_counter = (self.refresh_counter + 1) % PRUNE_PERIOD;
        if self.refresh_counter == 0 {
            self.clear_dead_entries();
        }
    }

    /// Takes in the raw counter records read at `now`: the well-formed ones
    /// are decoded and ingested as one snapshot, the others skipped.
    pub fn refresh_tick(&mut self, records: &Vec<RawRecord>, now: u64)
        requires
            old(self).wf(),
            now >= old(self).last_tick(),
        ensures
            final(self).wf(),
            exists|snapshot: Seq<(Pid, i32, i32)>|
                #[trigger] is_decoding_of(records@, snapshot) && final(self).histories()
                    == after_tick(old(self).histories(), old(self).ticks_since_prune(), snapshot, now),
            final(self).last_tick() == now,
            final(self).ticks_since_prune() == next_count(old(self).ticks_since_prune()),
    {
        let snapshot = decode_snapshot(records);
        self.ingest(&snapshot, now);
    }

    /// When the latest snapshot was taken; a caller's clock reading for the
    /// next one must not be earlier.
    pub fn get_last_tick(&self) -> (r: u64)
        ensures
            r == self.last_tick(),
    {
        self.last_tick
    }

    /// The newest cumulative count of bytes received by `pid`, or `None`
    /// when it is not tracked.
    pub fn get_nbr_of_bytes_received_since_monitoring_started(&self, pid: Pid) -> (r: Option<
        NumberOfBytes,
    >)
        requires
            self.wf(),
        ensures
            r == if self.histories().contains_key(pid) {
                Some(self.histories()[pid].last().received)
            } else {
                None::<NumberOfBytes>
            },
    {
        match self.over_time_per_pid.get(&pid) {
            Some(ticks) => Some(ticks.last().received),
            None => None,
        }
    }

    /// The newest cumulative count of bytes sent by `pid`, or `None` when it
    /// is not tracked.
    pub fn get_nbr_of_bytes_send_since_monitoring_started(&self, pid: Pid) -> (r: Option<
        NumberOfBytes,
    >)
        requires
            self.wf(),
        ensures
            r == if self.histories().contains_key(pid) {
                Some(self.histories()[pid].last().send)
            } else {
                None::<NumberOfBytes>
            },
    {
        match self.over_time_per_pid.get(&pid) {
            Some(ticks) => Some(ticks.last().send),
            None => None,
        }
    }
}

/// Whether `t` is older than `window` milliseconds at time `now`.
fn is_outside_window(t: &TrackingTick, window: u64, now: u64) -> (r: bool)
    ensures
        r == exceeds_window(*t, window, now),
{
    now > t.at && now - t.at > window
}

/// The received and sent rates of one history over `window` at `now`.
fn rates_over_window(ticks: &HistoryBuffer<HISTORY_DEPTH, TrackingTick>, window: u64, now: u64) -> (r: (
    BytesPerSecond,
    BytesPerSecond,
))
    requires
        ticks.wf(),
        forall|i: int| 0 <= i < ticks@.len() ==> fits_i32(#[trigger] ticks@[i]),
    ensures
        r.0@ == window_rates(ticks@, window, now).0,
        r.1@ == window_rates(ticks@, window, now).1,
{
    proof {
        ticks.lemma_wf_bounds();
    }
    let last: usize = ticks.len() - 1;
    let mut first: usize = last;
    while first > 0 && !is_outside_window(ticks.index(first), window, now)
        invariant
            first <= last,
            last == ticks@.len() - 1,
            ticks.wf(),
            window_start(ticks@, last as int, window, now) == window_start(
                ticks@,
                first as int,
                window,
                now,
            ),
        decreases first,
    {
        first = first - 1;
    }
    if first == last {
        return (BytesPerSecond::zero(), BytesPerSecond::zero());
    }
    let newest = ticks.index(last);
    let oldest = ticks.index(first);
    let elapsed: u64 = if newest.at > oldest.at {
        newest.at - oldest.at
    } else {
        0
    };
    (
        BytesPerSecond::new(newest.received - oldest.received, elapsed),
        BytesPerSecond::new(newest.send - oldest.send, elapsed),
    )
}

/// Whether one of the first `n` entries of a walk over the histories is
/// `pid`, fresh in `h` at `tick`.
spec fn seen_fresh(
    seq: Seq<(&Pid, &HistoryBuffer<HISTORY_DEPTH, TrackingTick>)>,
    n: int,
    h: Map<Pid, Seq<TrackingTick>>,
    tick: u64,
    pid: Pid,
) -> bool {
    exists|i: int| 0 <= i < n && *seq[i].0 == pid && is_fresh(h, tick, pid)
}

/// Whether some line of `r` is about `pid`.
spec fn listed(r: Seq<(Pid, BytesPerSecond, BytesPerSecond)>, pid: Pid) -> bool {
    exists|j: int| 0 <= j < r.len() && r[j].0 == pid
}

impl BandwidthTracker {
    /// For every process that appeared in the latest snapshot, ordered by
    /// pid: its received and sent rates over the last `window` milliseconds
    /// at time `now`.  Processes missing from the latest snapshot are left
    /// out.  A window deeper than the retained history uses the oldest sample
    /// kept.
    #[verifier::rlimit(50)]
    pub fn get_throughput_over_duration(&self, window: u64, now: u64) -> (r: Vec<
        (Pid, BytesPerSecond, BytesPerSecond),
    >)
        requires
            self.wf(),
        ensures
            is_throughput_report(r@, self.histories(), self.last_tick(), window, now),
    {
        let ghost h = self.histories();
        let mut r: Vec<(Pid, BytesPerSecond, BytesPerSecond)> = Vec::new();
        for entry in it: self.over_time_per_pid.iter()
            invariant
                self.wf(),
                h == self.histories(),
                it.seq() == self.over_time_per_pid.iter().remaining(),
                forall|i: int, j: int| 0 <= i < j < r@.len() ==> r@[i].0 < r@[j].0,
                forall|i: int|
                    0 <= i < r@.len() ==> is_report_entry(#[trigger] r@[i], h, self.last_tick, window, now),
                forall|p: Pid|
                    #[trigger] seen_fresh(it.seq(), it.index(), h, self.last_tick, p) <==> #[trigger] listed(r@, p),
        {
            let (pid, ticks) = entry;
            assert(entry == it.seq()[it.index()]);
            proof {
                vstd::std_specs::hash::axiom_spec_hash_map_iter(&self.over_time_per_pid);
                assert(self.over_time_per_pid@.contains_key(*pid));
                assert(self.over_time_per_pid@[*pid] == *ticks);
                assert(h[*pid] == ticks@);
            }
            let ghost r0 = r@;
            let ghost n = it.index();
            let ghost seq = it.seq();
            if ticks.last().at == self.last_tick {
                let (received, sent) = rates_over_window(ticks, window, now);
                let mut pos: usize = 0;
                while pos < r.len() && r[pos].0 < *pid
                    invariant
                        r@ == r0,
                        pos <= r@.len(),
                        forall|j: int| 0 <= j < pos ==> r@[j].0 < *pid,
                    decreases r@.len() - pos,
                {
                    pos = pos + 1;
                }
                if pos >= r.len() || r[pos].0 != *pid {
                    let e = (*pid, received, sent);
                    r.insert(pos, e);
                    proof {
                        r0.insert_ensures(pos as int, e);
                        assert forall|i: int, j: int| 0 <= i < j < r@.len() implies r@[i].0
                            < r@[j].0 by {
                            if j < pos {
                            } else if j == pos {
                            } else if i < pos {
                                assert(r@[j] == r0[j - 1]);
                            } else if i == pos {
                                assert(r@[j] == r0[j - 1]);
                                assert(r0[pos as int].0 <= r0[j - 1].0);
                            } else {
                                assert(r@[j] == r0[j - 1]);
                                assert(r@[i] == r0[i - 1]);
                            }
                        }
                        assert forall|i: int| 0 <= i < r@.len() implies is_report_entry(
                            #[trigger] r@[i],
                            h,
                            self.last_tick,
                            window,
                            now,
                        ) by {
                            if i > pos {
                                assert(r@[i] == r0[i - 1]);
                            }
                        }
                        assert forall|p: Pid|
                            #[trigger] seen_fresh(seq, n + 1, h, self.last_tick, p) <==> #[trigger] listed(r@, p) by {
                            if seen_fresh(seq, n + 1, h, self.last_tick, p) {
                                let i = choose|i: int| 0 <= i < n + 1 && *seq[i].0 == p && is_fresh(h, self.last_tick, p);
                                if i < n {
                                    assert(seen_fresh(seq, n, h, self.last_tick, p));
                                    assert(listed(r0, p));
                                    let j = choose|j: int| 0 <= j < r0.len() && r0[j].0 == p;
                                    if j < pos {
                                        assert(r@[j].0 == p);
                                    } else {
                                        assert(r@[j + 1].0 == p);
                                    }
                                } else {
                                    assert(r@[pos as int].0 == p);
                                }
                                assert(listed(r@, p));
                            }
                            if listed(r@, p) {
                                let j = choose|j: int| 0 <= j < r@.len() && r@[j].0 == p;
                                if j == pos {
                                    assert(*seq[n].0 == p);
                                    assert(0 <= n < n + 1 && *seq[n].0 == p && is_fresh(h, self.last_tick, p));
                                } else {
                                    if j < pos {
                                        assert(r0[j].0 == p);
                                    } else {
                                        assert(r0[j - 1].0 == p);
                                    }
                                    assert(listed(r0, p));
                                    assert(seen_fresh(seq, n, h, self.last_tick, p));
                                    let i = choose|i: int| 0 <= i < n && *seq[i].0 == p && is_fresh(h, self.last_tick, p);
                                    assert(0 <= i < n + 1 && *seq[i].0 == p && is_fresh(h, self.last_tick, p));
                                }
                            }
                        }
                    }
                } else {
                    proof {
                        assert forall|p: Pid| #[trigger] seen_fresh(seq, n + 1, h, self.last_tick, p)
                            <==> #[trigger] listed(r@, p) by {
                            if seen_fresh(seq, n + 1, h, self.last_tick, p) {
                                let i = choose|i: int| 0 <= i < n + 1 && *seq[i].0 == p && is_fresh(h, self.last_tick, p);
                                if i == n {
                                    assert(r@[pos as int].0 == p);
                                } else {
                                    assert(seen_fresh(seq, n, h, self.last_tick, p));
                                }
                            }
                            if listed(r@, p) {
                                assert(seen_fresh(seq, n, h, self.last_tick, p));
                                let i = choose|i: int| 0 <= i < n && *seq[i].0 == p && is_fresh(h, self.last_tick, p);
                                assert(0 <= i < n + 1 && *seq[i].0 == p && is_fresh(h, self.last_tick, p));
                            }
                        }
                    }
                }
            } else {
                proof {
                    assert forall|p: Pid| #[trigger] seen_fresh(seq, n + 1, h, self.last_tick, p)
                        <==> #[trigger] listed(r@, p) by {
                        if seen_fresh(seq, n + 1, h, self.last_tick, p) {
                            let i = choose|i: int| 0 <= i < n + 1 && *seq[i].0 == p && is_fresh(h, self.last_tick, p);
                            if i == n {
                                assert(!is_fresh(h, self.last_tick, p));
                            }
                            assert(seen_fresh(seq, n, h, self.last_tick, p));
                        }
                        if listed(r@, p) {
                            assert(seen_fresh(seq, n, h, self.last_tick, p));
                            let i = choose|i: int| 0 <= i < n && *seq[i].0 == p && is_fresh(h, self.last_tick, p);
                            assert(0 <= i < n + 1 && *seq[i].0 == p && is_fresh(h, self.last_tick, p));
                        }
                    }
                }
            }
        }
        proof {
            vstd::std_specs::hash::axiom_spec_hash_map_iter(&self.over_time_per_pid);
            assert forall|p: Pid| #[trigger] is_fresh(h, self.last_tick, p) implies exists|j: int|
                0 <= j < r@.len() && r@[j].0 == p by {
                let m = &self.over_time_per_pid;
                let seq = m.iter().remaining();
                assert(m@.contains_key(p));
                assert(seq.contains((&p, &m@[p])));
                let i = choose|i: int| 0 <= i < seq.len() && seq[i] == (&p, &m@[p]);
                assert(*seq[i].0 == p);
                assert(seen_fresh(seq, seq.len() as int, h, self.last_tick, p));
                assert(listed(r@, p));
            }
        }
        r
    }
}

/// The histories after one tick per snapshot of `snapshots`, the `k`-th
/// taken at `times[k]`, starting from `h` with `count` ticks since the last
/// prune pass.
pub open spec fn after_ticks(
    h: Map<Pid, Seq<TrackingTick>>,
    count: nat,
    snapshots: Seq<Seq<(Pid, i32, i32)>>,
    times: Seq<u64>,
) -> Map<Pid, Seq<TrackingTick>>
    decreases snapshots.len(),
{
    if snapshots.len() == 0 || times.len() != snapshots.len() {
        h
    } else {
        after_tick(
            after_ticks(h, count, snapshots.drop_last(), times.drop_last()),
            ((count + snapshots.len() - 1) % (PRUNE_PERIOD as int)) as nat,
            snapshots.last(),
            times.last(),
        )
    }
}

/// Whether `pid` has an entry in `snapshot`.
pub open spec fn mentions(snapshot: Seq<(Pid, i32, i32)>, pid: Pid) -> bool {
    exists|k: int| 0 <= k < snapshot.len() && #[trigger] snapshot[k].0 == pid
}

/// Recording a snapshot that does not mention `pid` leaves its history, or
/// its absence, as it was.
pub proof fn lemma_ingest_leaves_others(
    h: Map<Pid, Seq<TrackingTick>>,
    snapshot: Seq<(Pid, i32, i32)>,
    now: u64,
    pid: Pid,
)
    requires
        !mentions(snapshot, pid),
    ensures
        ingested(h, snapshot, now).contains_key(pid) == h.contains_key(pid),
        h.contains_key(pid) ==> ingested(h, snapshot, now)[pid] == h[pid],
    decreases snapshot.len(),
{
    if snapshot.len() > 0 {
        let rest = snapshot.drop_last();
        assert(!mentions(rest, pid)) by {
            if mentions(rest, pid) {
                let k = choose|k: int| 0 <= k < rest.len() && #[trigger] rest[k].0 == pid;
                assert(snapshot[k].0 == pid);
            }
        }
        assert(snapshot[snapshot.len() - 1].0 != pid);
        lemma_ingest_leaves_others(h, rest, now, pid);
    }
}

/// A process that no snapshot mentions and that was not tracked is never
/// tracked, and so never appears in a throughput report.
pub proof fn lemma_unseen_pid_never_reported(
    h: Map<Pid, Seq<TrackingTick>>,
    count: nat,
    snapshots: Seq<Seq<(Pid, i32, i32)>>,
    times: Seq<u64>,
    pid: Pid,
)
    requires
        !h.contains_key(pid),
        forall|k: int| 0 <= k < snapshots.len() ==> !mentions(#[trigger] snapshots[k], pid),
    ensures
        !after_ticks(h, count, snapshots, times).contains_key(pid),
        forall|r: Seq<(Pid, BytesPerSecond, BytesPerSecond)>, tick: u64, window: u64, now: u64|
            #[trigger] is_throughput_report(r, after_ticks(h, count, snapshots, times), tick, window, now)
                ==> forall|i: int| 0 <= i < r.len() ==> (#[trigger] r[i]).0 != pid,
    decreases snapshots.len(),
{
    if snapshots.len() > 0 && times.len() == snapshots.len() {
        let rest = snapshots.drop_last();
        assert forall|k: int| 0 <= k < rest.len() implies !mentions(#[trigger] rest[k], pid) by {
            assert(rest[k] == snapshots[k]);
        }
        lemma_unseen_pid_never_reported(h, count, rest, times.drop_last(), pid);
        let before = after_ticks(h, count, rest, times.drop_last());
        assert(!mentions(snapshots[snapshots.len() - 1], pid));
        lemma_ingest_leaves_others(before, snapshots.last(), times.last(), pid);
    }
    let end = after_ticks(h, count, snapshots, times);
    assert forall|r: Seq<(Pid, BytesPerSecond, BytesPerSecond)>, tick: u64, window: u64, now: u64|
        #[trigger] is_throughput_report(r, end, tick, window, now) implies forall|i: int|
        0 <= i < r.len() ==> (#[trigger] r[i]).0 != pid by {
        assert forall|i: int| 0 <= i < r.len() implies (#[trigger] r[i]).0 != pid by {
            assert(is_report_entry(r[i], end, tick, window, now));
        }
    }
}

/// A tracked process that the next snapshots do not mention keeps its
/// history, and so its totals, as long as no prune pass runs; the tick that
/// runs the next prune pass forgets it, unless that tick shares its newest
/// sample's time.
pub proof fn lemma_absent_pid_kept_until_prune(
    h: Map<Pid, Seq<TrackingTick>>,
    count: nat,
    snapshots: Seq<Seq<(Pid, i32, i32)>>,
    times: Seq<u64>,
    pid: Pid,
)
    requires
        h.contains_key(pid),
        h[pid].len() > 0,
        count < PRUNE_PERIOD,
        times.len() == snapshots.len(),
        forall|k: int| 0 <= k < snapshots.len() ==> !mentions(#[trigger] snapshots[k], pid),
    ensures
        count + snapshots.len() < PRUNE_PERIOD ==> {
            &&& after_ticks(h, count, snapshots, times).contains_key(pid)
            &&& after_ticks(h, count, snapshots, times)[pid] == h[pid]
        },
        count + snapshots.len() == PRUNE_PERIOD && times.last() != h[pid].last().at
            ==> !after_ticks(h, count, snapshots, times).contains_key(pid),
    decreases snapshots.len(),
{
    if snapshots.len() > 0 {
        let rest = snapshots.drop_last();
        assert forall|k: int| 0 <= k < rest.len() implies !mentions(#[trigger] rest[k], pid) by {
            assert(rest[k] == snapshots[k]);
        }
        lemma_absent_pid_kept_until_prune(h, count, rest, times.drop_last(), pid);
        let before = after_ticks(h, count, rest, times.drop_last());
        assert(!mentions(snapshots[snapshots.len() - 1], pid));
        lemma_ingest_leaves_others(before, snapshots.last(), times.last(), pid);
        if count + snapshots.len() <= PRUNE_PERIOD {
            vstd::arithmetic::div_mod::lemma_small_mod(
                (count + snapshots.len() - 1) as nat,
                PRUNE_PERIOD as nat,
            );
            if count + snapshots.len() < PRUNE_PERIOD {
                vstd::arithmetic::div_mod::lemma_small_mod(
                    (count + snapshots.len()) as nat,
                    PRUNE_PERIOD as nat,
                );
            }
        }
    }
}

/// When the oldest sample a window scan reaches was taken at the same time
/// as the newest one, both rates are zero.
pub proof fn lemma_zero_elapsed_gives_zero_rates(h: Seq<TrackingTick>, window: u64, now: u64)
    requires
        h.len() > 0,
        h[window_start(h, h.len() - 1, window, now)].at == h.last().at,
    ensures
        window_rates(h, window, now) == (0int, 0int),
{
}

/// A report is fixed by the tracker's histories, its last tick, the window
/// and the time: asking twice with nothing ingested in between gives the
/// same report.
pub proof fn lemma_throughput_report_unique(
    h: Map<Pid, Seq<TrackingTick>>,
    tick: u64,
    window: u64,
    now: u64,
    a: Seq<(Pid, BytesPerSecond, BytesPerSecond)>,
    b: Seq<(Pid, BytesPerSecond, BytesPerSecond)>,
)
    requires
        is_throughput_report(a, h, tick, window, now),
        is_throughput_report(b, h, tick, window, now),
    ensures
        a == b,
{
    lemma_report_not_shorter(h, tick, window, now, a, b);
    lemma_report_not_shorter(h, tick, window, now, b, a);
    lemma_reports_agree_below(h, tick, window, now, a, b, a.len() as int);
    assert(a =~= b);
}

/// Two reports of one state agree on their first `k` lines.
proof fn lemma_reports_agree_below(
    h: Map<Pid, Seq<TrackingTick>>,
    tick: u64,
    window: u64,
    now: u64,
    a: Seq<(Pid, BytesPerSecond, BytesPerSecond)>,
    b: Seq<(Pid, BytesPerSecond, BytesPerSecond)>,
    k: int,
)
    requires
        is_throughput_report(a, h, tick, window, now),
        is_throughput_report(b, h, tick, window, now),
        0 <= k <= a.len(),
        k <= b.len(),
    ensures
        forall|i: int| 0 <= i < k ==> a[i] == b[i],
    decreases k,
{
    if k > 0 {
        lemma_reports_agree_below(h, tick, window, now, a, b, k - 1);
        let i = k - 1;
        assert(is_report_entry(a[i], h, tick, window, now));
        assert(is_report_entry(b[i], h, tick, window, now));
        if a[i].0 < b[i].0 {
            assert(is_fresh(h, tick, a[i].0));
            let j = choose|j: int| 0 <= j < b.len() && b[j].0 == a[i].0;
            if j < i {
                assert(a[j] == b[j]);
            }
        } else if b[i].0 < a[i].0 {
            assert(is_fresh(h, tick, b[i].0));
            let j = choose|j: int| 0 <= j < a.len() && a[j].0 == b[i].0;
            if j < i {
                assert(a[j] == b[j]);
            }
        }
        BytesPerSecond::lemma_view_determines(a[i].1, b[i].1);
        BytesPerSecond::lemma_view_determines(a[i].2, b[i].2);
    }
}

/// A report of a state is no shorter than another report of it.
proof fn lemma_report_not_shorter(
    h: Map<Pid, Seq<TrackingTick>>,
    tick: u64,
    window: u64,
    now: u64,
    a: Seq<(Pid, BytesPerSecond, BytesPerSecond)>,
    b: Seq<(Pid, BytesPerSecond, BytesPerSecond)>,
)
    requires
        is_throughput_report(a, h, tick, window, now),
        is_throughput_report(b, h, tick, window, now),
    ensures
        a.len() >= b.len(),
{
    if a.len() < b.len() {
        lemma_reports_agree_below(h, tick, window, now, a, b, a.len() as int);
        let i = a.len() as int;
        assert(is_report_entry(b[i], h, tick, window, now));
        assert(is_fresh(h, tick, b[i].0));
        let j = choose|j: int| 0 <= j < a.len() && a[j].0 == b[i].0;
        assert(a[j] == b[j]);
    }
}

/// Recording a snapshot tracks exactly the processes tracked before and
/// those it mentions; each one it mentions ends with a sample taken at `now`.
pub proof fn lemma_ingest_tracks_mentioned(
    h: Map<Pid, Seq<TrackingTick>>,
    snapshot: Seq<(Pid, i32, i32)>,
    now: u64,
    pid: Pid,
)
    ensures
        ingested(h, snapshot, now).contains_key(pid) <==> (h.contains_key(pid) || mentions(
            snapshot,
            pid,
        )),
        mentions(snapshot, pid) ==> ingested(h, snapshot, now)[pid].last().at == now,
    decreases snapshot.len(),
{
    if snapshot.len() > 0 {
        let rest = snapshot.drop_last();
        lemma_ingest_tracks_mentioned(h, rest, now, pid);
        if mentions(snapshot, pid) && !mentions(rest, pid) {
            let k = choose|k: int| 0 <= k < snapshot.len() && #[trigger] snapshot[k].0 == pid;
            if k < rest.len() {
                assert(rest[k].0 == pid);
            }
        }
        if mentions(rest, pid) {
            let k = choose|k: int| 0 <= k < rest.len() && #[trigger] rest[k].0 == pid;
            assert(snapshot[k].0 == pid);
        }
        if snapshot.last().0 == pid {
            assert(snapshot[snapshot.len() - 1].0 == pid);
        }
    }
}

/// After a snapshot taken later than every tracked sample, the fresh
/// processes are exactly those the snapshot mentions; after a tick that runs
/// the prune pass, the tracked processes are exactly those too.
pub proof fn lemma_tick_fresh_set(
    h: Map<Pid, Seq<TrackingTick>>,
    count: nat,
    snapshot: Seq<(Pid, i32, i32)>,
    now: u64,
    pid: Pid,
)
    requires
        forall|p: Pid| #[trigger]
            h.contains_key(p) ==> h[p].len() > 0 && h[p].last().at < now,
    ensures
        is_fresh(after_tick(h, count, snapshot, now), now, pid) <==> mentions(snapshot, pid),
        next_count(count) == 0 ==> (after_tick(h, count, snapshot, now).contains_key(pid)
            <==> mentions(snapshot, pid)),
{
    lemma_ingest_tracks_mentioned(h, snapshot, now, pid);
    if !mentions(snapshot, pid) {
        lemma_ingest_leaves_others(h, snapshot, now, pid);
    }
}

/// When the oldest sample of a time-ordered history is still inside the
/// window, the scan reaches it: a window longer than the history uses the
/// oldest sample kept.
pub proof fn lemma_long_window_uses_oldest(h: Seq<TrackingTick>, window: u64, now: u64)
    requires
        h.len() > 0,
        is_time_ordered(h),
        now - h[0].at <= window,
    ensures
        window_start(h, h.len() - 1, window, now) == 0,
        h.len() > 1 ==> window_rates(h, window, now) == (
            rate_of(h.last().received@ - h[0].received@, h.last().at - h[0].at),
            rate_of(h.last().send@ - h[0].send@, h.last().at - h[0].at),
        ),
{
    lemma_scan_reaches_start(h, h.len() - 1, window, now);
}

proof fn lemma_scan_reaches_start(h: Seq<TrackingTick>, i: int, window: u64, now: u64)
    requires
        0 <= i < h.len(),
        is_time_ordered(h),
        now - h[0].at <= window,
    ensures
        window_start(h, i, window, now) == 0,
    decreases i,
{
    if i > 0 {
        assert(h[0].at <= h[i].at);
        lemma_scan_reaches_start(h, i - 1, window, now);
    }
}

/// A rate is never larger in size than a thousand times the bytes moved.
pub proof fn lemma_rate_bounded(bytes: int, millis: int)
    ensures
        -1000 * (if bytes < 0 { -bytes } else { bytes }) <= rate_of(bytes, millis) <= 1000 * (if bytes < 0 {
            -bytes
        } else {
            bytes
        }),
{
    if millis > 0 {
        let m = if bytes < 0 {
            -bytes
        } else {
            bytes
        };
        assert(0 <= (m * 1000) / millis <= m * 1000) by (nonlinear_arith)
            requires
                m >= 0,
                millis >= 1,
        ;
    }
}

/// Whatever the window and the time, even when samples share a timestamp,
/// the rates of a history with 32-bit counters are finite integers of size at
/// most a thousand times the largest counter difference.
pub proof fn lemma_rates_are_bounded(h: Seq<TrackingTick>, window: u64, now: u64)
    requires
        h.len() > 0,
        forall|i: int| 0 <= i < h.len() ==> fits_i32(#[trigger] h[i]),
    ensures
        -0x1_0000_0000 * 1000 <= window_rates(h, window, now).0 <= 0x1_0000_0000 * 1000,
        -0x1_0000_0000 * 1000 <= window_rates(h, window, now).1 <= 0x1_0000_0000 * 1000,
{
    let last = h.len() - 1;
    let first = window_start(h, last, window, now);
    lemma_window_start_in_range(h, last, window, now);
    if first < last {
        assert(fits_i32(h[first]) && fits_i32(h[last]));
        lemma_rate_bounded(h[last].received@ - h[first].received@, h[last].at - h[first].at);
        lemma_rate_bounded(h[last].send@ - h[first].send@, h[last].at - h[first].at);
    }
}

proof fn lemma_window_start_in_range(h: Seq<TrackingTick>, i: int, window: u64, now: u64)
    requires
        0 <= i,
    ensures
        0 <= window_start(h, i, window, now) <= i,
    decreases i,
{
    if i > 0 {
        lemma_window_start_in_range(h, i - 1, window, now);
    }
}

/// Running ticks over `a` and then over `b` is running them over `a + b`.
pub proof fn lemma_after_ticks_split(
    h: Map<Pid, Seq<TrackingTick>>,
    count: nat,
    a: Seq<Seq<(Pid, i32, i32)>>,
    ta: Seq<u64>,
    b: Seq<Seq<(Pid, i32, i32)>>,
    tb: Seq<u64>,
)
    requires
        a.len() == ta.len(),
        b.len() == tb.len(),
    ensures
        after_ticks(h, count, a + b, ta + tb) == after_ticks(
            after_ticks(h, count, a, ta),
            (((count + a.len()) as int) % (PRUNE_PERIOD as int)) as nat,
            b,
            tb,
        ),
    decreases b.len(),
{
    if b.len() == 0 {
        assert(a + b =~= a);
        assert(ta + tb =~= ta);
    } else {
        lemma_after_ticks_split(h, count, a, ta, b.drop_last(), tb.drop_last());
        assert((a + b).drop_last() =~= a + b.drop_last());
        assert((ta + tb).drop_last() =~= ta + tb.drop_last());
        let p = PRUNE_PERIOD as int;
        let x = (count + a.len()) as int;
        let y = (b.len() - 1) as int;
        vstd::arithmetic::div_mod::lemma_add_mod_noop(x, y, p);
        vstd::arithmetic::div_mod::lemma_add_mod_noop(x % p, y, p);
        vstd::arithmetic::div_mod::lemma_mod_twice(x, p);
        vstd::arithmetic::div_mod::lemma_mod_pos_bound(x, p);
        assert(((x % p) + y) % p == (x + y) % p);
    }
}

/// After a snapshot is recorded, a process it mentions ends with the sample
/// of its last entry there.
pub proof fn lemma_ingest_keeps_last_mention(
    h: Map<Pid, Seq<TrackingTick>>,
    snapshot: Seq<(Pid, i32, i32)>,
    now: u64,
    k: int,
)
    requires
        0 <= k < snapshot.len(),
        forall|j: int| k < j < snapshot.len() ==> (#[trigger] snapshot[j]).0 != snapshot[k].0,
    ensures
        ingested(h, snapshot, now).contains_key(snapshot[k].0),
        ingested(h, snapshot, now)[snapshot[k].0].len() > 0,
        ingested(h, snapshot, now)[snapshot[k].0].last() == sample_of(
            snapshot[k].1,
            snapshot[k].2,
            now,
        ),
    decreases snapshot.len(),
{
    if k < snapshot.len() - 1 {
        let rest = snapshot.drop_last();
        assert(snapshot[snapshot.len() - 1].0 != snapshot[k].0);
        assert forall|j: int| k < j < rest.len() implies (#[trigger] rest[j]).0 != rest[k].0 by {
            assert(rest[j] == snapshot[j]);
        }
        lemma_ingest_keeps_last_mention(h, rest, now, k);
    }
}

/// From a new tracker: a process that the first snapshot reports and no
/// later one mentions keeps, as its newest sample, what the first snapshot
/// last said of it through the ninth tick, so its totals stay known; the
/// tenth tick's prune pass forgets it.
pub proof fn lemma_stale_pid_totals_kept_until_prune(
    snapshots: Seq<Seq<(Pid, i32, i32)>>,
    times: Seq<u64>,
    pid: Pid,
    k: int,
)
    requires
        snapshots.len() == times.len(),
        1 <= snapshots.len() <= PRUNE_PERIOD,
        0 <= k < snapshots[0].len(),
        snapshots[0][k].0 == pid,
        forall|j: int| k < j < snapshots[0].len() ==> (#[trigger] snapshots[0][j]).0 != pid,
        forall|i: int| 1 <= i < snapshots.len() ==> !mentions(#[trigger] snapshots[i], pid),
        forall|i: int| 1 <= i < times.len() ==> times[0] < #[trigger] times[i],
    ensures
        snapshots.len() < PRUNE_PERIOD ==> {
            let end = after_ticks(Map::empty(), 0, snapshots, times);
            &&& end.contains_key(pid)
            &&& end[pid].last() == sample_of(snapshots[0][k].1, snapshots[0][k].2, times[0])
        },
        snapshots.len() == PRUNE_PERIOD ==> !after_ticks(
            Map::empty(),
            0,
            snapshots,
            times,
        ).contains_key(pid),
{
    let empty = Map::<Pid, Seq<TrackingTick>>::empty();
    let a = snapshots.subrange(0, 1);
    let ta = times.subrange(0, 1);
    let b = snapshots.subrange(1, snapshots.len() as int);
    let tb = times.subrange(1, times.len() as int);
    assert(a + b =~= snapshots);
    assert(ta + tb =~= times);
    lemma_after_ticks_split(empty, 0, a, ta, b, tb);
    assert(a.drop_last() =~= Seq::<Seq<(Pid, i32, i32)>>::empty());
    assert(a.last() == snapshots[0]);
    assert(ta.last() == times[0]);
    let h1 = after_ticks(empty, 0, a, ta);
    reveal_with_fuel(after_ticks, 2);
    assert(next_count(0) == 1);
    assert(h1 == ingested(empty, snapshots[0], times[0]));
    lemma_ingest_keeps_last_mention(empty, snapshots[0], times[0], k);
    vstd::arithmetic::div_mod::lemma_small_mod(1, PRUNE_PERIOD as nat);
    assert forall|i: int| 0 <= i < b.len() implies !mentions(#[trigger] b[i], pid) by {
        assert(b[i] == snapshots[i + 1]);
    }
    lemma_ingest_tracks_mentioned(empty, snapshots[0], times[0], pid);
    lemma_absent_pid_kept_until_prune(h1, 1, b, tb, pid);
    if b.len() > 0 {
        assert(tb.last() == times[times.len() - 1]);
    }
}

} // verus!
