//! Sync-relative streaming coincidence counting.
//!
//! For long or unbounded runs the engine consumes events one at a time, in
//! arrival order, keeping only a queue of pending sync timestamps. A sync
//! event enqueues its timestamp; any other event is tallied as a single and
//! compared against every pending sync: a gap of at most the window counts a
//! coincidence for the pair (sync channel, event channel), a gap beyond the
//! window marks the entry stale. After the scan the queue is cut down to the
//! entries past the last stale position. Only coincidences between the sync
//! channel and another channel are detected in this mode.

use vstd::prelude::*;

use crate::coincidence::channels_in_range;
use crate::pairs::{
    coincidence_channels_to_index, lemma_pair_index_in_range, pair_index_spec, NUM_CHANNELS,
    PAIR_SENTINEL,
};

verus! {

/// The tallies have room for a batch of `n` events: each single can grow by
/// at most `n`, each coincidence slot by at most `n` times the largest queue
/// the batch can see.
pub open spec fn counters_headroom(
    singles: Seq<u64>,
    coincidences: Seq<u64>,
    pending_len: int,
    n: int,
) -> bool {
    &&& forall|c: int| 0 <= c < 8 ==> (#[trigger] singles[c]) + n <= u64::MAX
    &&& forall|k: int|
        0 <= k < 29 ==> (#[trigger] coincidences[k]) + n * (pending_len + n) <= u64::MAX
}

/// How many queue entries lie within the window of an event at `time`: the
/// gap `time - entry` is at most `window` (an entry not yet behind the event
/// counts as within).
pub open spec fn close_count(queue: Seq<u64>, time: u64, window: u64) -> int
    decreases queue.len(),
{
    if queue.len() == 0 {
        0
    } else {
        close_count(queue.drop_last(), time, window) + if (time as int) - (queue.last() as int)
            <= (window as int) {
            1int
        } else {
            0int
        }
    }
}

/// How many entries the scan drops from the front of the queue: everything up
/// to and including the last position whose gap exceeds the window.
pub open spec fn drop_count(queue: Seq<u64>, time: u64, window: u64) -> int
    decreases queue.len(),
{
    if queue.len() == 0 {
        0
    } else if (time as int) - (queue.last() as int) > (window as int) {
        queue.len() as int
    } else {
        drop_count(queue.drop_last(), time, window)
    }
}

/// `close_count` never exceeds the queue length.
pub proof fn lemma_close_count_le_len(queue: Seq<u64>, time: u64, window: u64)
    ensures
        0 <= close_count(queue, time, window) <= queue.len(),
    decreases queue.len(),
{
    if queue.len() > 0 {
        lemma_close_count_le_len(queue.drop_last(), time, window);
    }
}

/// `drop_count` never exceeds the queue length.
pub proof fn lemma_drop_count_le_len(queue: Seq<u64>, time: u64, window: u64)
    ensures
        0 <= drop_count(queue, time, window) <= queue.len(),
    decreases queue.len(),
{
    if queue.len() > 0 {
        lemma_drop_count_le_len(queue.drop_last(), time, window);
    }
}

/// Pending sync queue left after streaming a whole event sequence from queue
/// state `queue`.
pub open spec fn pending_after(
    queue: Seq<u64>,
    events: Seq<(u8, u64)>,
    window: u64,
    sync_channel: u8,
) -> Seq<u64>
    decreases events.len(),
{
    if events.len() == 0 {
        queue
    } else {
        let ev = events[0];
        if ev.0 == sync_channel {
            pending_after(queue.push(ev.1), events.skip(1), window, sync_channel)
        } else {
            pending_after(
                queue.skip(drop_count(queue, ev.1, window)),
                events.skip(1),
                window,
                sync_channel,
            )
        }
    }
}

/// Coincidences added to slot `k` of the tally while streaming an event
/// sequence from queue state `queue`: each non-sync event whose channel pairs
/// with the sync channel at index `k` contributes the pending syncs within
/// its window.
pub open spec fn stream_coinc_add(
    queue: Seq<u64>,
    events: Seq<(u8, u64)>,
    window: u64,
    sync_channel: u8,
    k: int,
) -> int
    decreases events.len(),
{
    if events.len() == 0 {
        0
    } else {
        let ev = events[0];
        if ev.0 == sync_channel {
            stream_coinc_add(queue.push(ev.1), events.skip(1), window, sync_channel, k)
        } else {
            (if pair_index_spec(sync_channel, ev.0) == k {
                close_count(queue, ev.1, window)
            } else {
                0int
            }) + stream_coinc_add(
                queue.skip(drop_count(queue, ev.1, window)),
                events.skip(1),
                window,
                sync_channel,
                k,
            )
        }
    }
}

/// Events on channel `c` among the sequence, the sync channel never counted.
pub open spec fn stream_singles_add(events: Seq<(u8, u64)>, sync_channel: u8, c: u8) -> int
    decreases events.len(),
{
    if events.len() == 0 {
        0
    } else {
        (if events[0].0 == c && c != sync_channel {
            1int
        } else {
            0int
        }) + stream_singles_add(events.skip(1), sync_channel, c)
    }
}

/// The sync channel itself is never tallied as a single.
pub proof fn lemma_stream_singles_sync_zero(events: Seq<(u8, u64)>, sync_channel: u8)
    ensures
        stream_singles_add(events, sync_channel, sync_channel) == 0,
    decreases events.len(),
{
    if events.len() > 0 {
        lemma_stream_singles_sync_zero(events.skip(1), sync_channel);
    }
}

/// A stream of valid channels never touches the sentinel slot.
pub proof fn lemma_stream_coinc_sentinel_zero(
    queue: Seq<u64>,
    events: Seq<(u8, u64)>,
    window: u64,
    sync_channel: u8,
)
    requires
        sync_channel < NUM_CHANNELS,
        channels_in_range(events),
    ensures
        stream_coinc_add(queue, events, window, sync_channel, PAIR_SENTINEL as int) == 0,
    decreases events.len(),
{
    if events.len() > 0 {
        let ev = events[0];
        assert(ev.0 < NUM_CHANNELS);
        assert(channels_in_range(events.skip(1))) by {
            assert forall|k2: int|
                0 <= k2 < events.skip(1).len() implies (#[trigger] events.skip(
                1,
            )[k2]).0 < NUM_CHANNELS by {
                assert(events.skip(1)[k2] == events[k2 + 1]);
            }
        }
        if ev.0 == sync_channel {
            lemma_stream_coinc_sentinel_zero(queue.push(ev.1), events.skip(1), window, sync_channel);
        } else {
            lemma_pair_index_in_range(sync_channel, ev.0);
            lemma_stream_coinc_sentinel_zero(
                queue.skip(drop_count(queue, ev.1, window)),
                events.skip(1),
                window,
                sync_channel,
            );
        }
    }
}

/// Streaming coincidence engine: singles and sync-relative coincidence
/// tallies over an incrementally delivered event stream.
pub struct SyncCoincidenceCounter {
    /// Maximum gap, inclusive, for an event to match a pending sync.
    pub window: u64,
    /// The designated reference channel.
    pub sync_channel: u8,
    /// Pending sync timestamps, oldest first.
    pub pending_syncs: Vec<u64>,
    /// Per-channel event tallies (sync arrivals are not tallied here).
    pub singles: [u64; 8],
    /// Per-pair coincidence tallies, indexed like the batch counter.
    pub coincidences: [u64; 29],
}

impl SyncCoincidenceCounter {
    /// Fresh engine with empty queue and zero tallies.
    pub fn new(window: u64, sync_channel: u8) -> (s: SyncCoincidenceCounter)
        requires
            sync_channel < NUM_CHANNELS,
        ensures
            s.window == window,
            s.sync_channel == sync_channel,
            s.pending_syncs@.len() == 0,
            forall|c: int| 0 <= c < 8 ==> s.singles@[c] == 0,
            forall|k: int| 0 <= k < 29 ==> s.coincidences@[k] == 0,
    {
        SyncCoincidenceCounter {
            window,
            sync_channel,
            pending_syncs: Vec::new(),
            singles: [0u64; 8],
            coincidences: [0u64; 29],
        }
    }

    /// Feed one event. A sync event is queued; any other event bumps its
    /// single tally, adds the pending syncs within the window to the pair's
    /// coincidence tally, and drops the stale queue prefix.
    pub fn process_event(&mut self, channel: u8, time: u64)
        requires
            old(self).sync_channel < NUM_CHANNELS,
            channel < NUM_CHANNELS,
            channel != old(self).sync_channel ==> old(self).singles@[channel as int] < u64::MAX,
            channel != old(self).sync_channel ==> old(self).coincidences@[pair_index_spec(
                old(self).sync_channel,
                channel,
            )] + close_count(old(self).pending_syncs@, time, old(self).window) <= u64::MAX,
        ensures
            final(self).window == old(self).window,
            final(self).sync_channel == old(self).sync_channel,
            channel == old(self).sync_channel ==> {
                &&& final(self).pending_syncs@ == old(self).pending_syncs@.push(time)
                &&& final(self).singles@ == old(self).singles@
                &&& final(self).coincidences@ == old(self).coincidences@
            },
            channel != old(self).sync_channel ==> {
                &&& final(self).pending_syncs@ == old(self).pending_syncs@.skip(
                    drop_count(old(self).pending_syncs@, time, old(self).window),
                )
                &&& final(self).singles@ == old(self).singles@.update(
                    channel as int,
                    (old(self).singles@[channel as int] + 1) as u64,
                )
                &&& final(self).coincidences@ == old(self).coincidences@.update(
                    pair_index_spec(old(self).sync_channel, channel),
                    (old(self).coincidences@[pair_index_spec(old(self).sync_channel, channel)]
                        + close_count(old(self).pending_syncs@, time, old(self).window)) as u64,
                )
            },
    {
        if channel == self.sync_channel {
            self.pending_syncs.push(time);
            return ;
        }
        let ghost q = self.pending_syncs@;
        let w: u64 = self.window;
        let len: usize = self.pending_syncs.len();
        let mut matched: u64 = 0;
        let mut stale_end: usize = 0;
        let mut idx: usize = 0;
        while idx < len
            invariant
                idx <= len,
                len == q.len(),
                q == self.pending_syncs@,
                w == self.window,
                matched == close_count(q.take(idx as int), time, w),
                matched <= idx,
                stale_end as int == drop_count(q.take(idx as int), time, w),
                stale_end <= idx,
            decreases len - idx,
        {
            let s: u64 = self.pending_syncs[idx];
            proof {
                assert(q.take(idx as int + 1).drop_last() =~= q.take(idx as int));
            }
            if time >= s && time - s > w {
                stale_end = idx + 1;
            } else {
                matched = matched + 1;
            }
            idx = idx + 1;
        }
        proof {
            assert(q.take(len as int) =~= q);
            lemma_pair_index_in_range(self.sync_channel, channel);
        }
        self.singles[channel as usize] = self.singles[channel as usize] + 1;
        let k: usize = coincidence_channels_to_index((self.sync_channel, channel));
        self.coincidences[k] = self.coincidences[k] + matched;
        let mut rest: Vec<u64> = Vec::new();
        let mut idx2: usize = stale_end;
        while idx2 < len
            invariant
                stale_end <= idx2 <= len,
                len == q.len(),
                q == self.pending_syncs@,
                rest@ == q.subrange(stale_end as int, idx2 as int),
            decreases len - idx2,
        {
            let s: u64 = self.pending_syncs[idx2];
            rest.push(s);
            proof {
                assert(rest@ =~= q.subrange(stale_end as int, idx2 as int + 1));
            }
            idx2 = idx2 + 1;
        }
        proof {
            assert(q.subrange(stale_end as int, len as int) =~= q.skip(stale_end as int));
        }
        self.pending_syncs = rest;
    }

    /// Feed a batch of events in order. Returns `true` when the whole batch
    /// was folded in; `false` when an event's channel is out of range or a
    /// tally would overflow, leaving the engine at the state reached so far.
    /// Success is owed whenever the channels are in range and the tallies
    /// have headroom for the batch.
    pub fn process_events(&mut self, events: &[(u8, u64)]) -> (ok: bool)
        requires
            old(self).sync_channel < NUM_CHANNELS,
        ensures
            final(self).window == old(self).window,
            final(self).sync_channel == old(self).sync_channel,
            ok ==> channels_in_range(events@),
            ok ==> {
                &&& final(self).pending_syncs@ == pending_after(
                    old(self).pending_syncs@,
                    events@,
                    old(self).window,
                    old(self).sync_channel,
                )
                &&& forall|c: int|
                    0 <= c < 8 ==> final(self).singles@[c] == old(self).singles@[c]
                        + stream_singles_add(events@, old(self).sync_channel, c as u8)
                &&& forall|k: int|
                    0 <= k < 29 ==> final(self).coincidences@[k] == old(self).coincidences@[k]
                        + stream_coinc_add(
                        old(self).pending_syncs@,
                        events@,
                        old(self).window,
                        old(self).sync_channel,
                        k,
                    )
            },
            channels_in_range(events@) && counters_headroom(
                old(self).singles@,
                old(self).coincidences@,
                old(self).pending_syncs@.len() as int,
                events@.len() as int,
            ) ==> ok,
    {
        let ghost evs = events@;
        let ghost q0 = self.pending_syncs@;
        let ghost s0 = self.singles@;
        let ghost c0 = self.coincidences@;
        let w: u64 = self.window;
        let sync: u8 = self.sync_channel;
        let n: usize = events.len();
        let mut i: usize = 0;
        proof {
            assert(evs.skip(0) =~= evs);
        }
        while i < n
            invariant
                i <= n,
                n == evs.len(),
                evs == events@,
                q0 == old(self).pending_syncs@,
                s0 == old(self).singles@,
                c0 == old(self).coincidences@,
                self.window == old(self).window,
                self.sync_channel == old(self).sync_channel,
                w == self.window,
                sync == self.sync_channel,
                sync < NUM_CHANNELS,
                pending_after(q0, evs, w, sync) == pending_after(
                    self.pending_syncs@,
                    evs.skip(i as int),
                    w,
                    sync,
                ),
                forall|k: int|
                    0 <= k < 29 ==> stream_coinc_add(q0, evs, w, sync, k) == (
                    self.coincidences@[k] - c0[k]) + stream_coinc_add(
                        self.pending_syncs@,
                        evs.skip(i as int),
                        w,
                        sync,
                        k,
                    ),
                forall|c: int|
                    0 <= c < 8 ==> stream_singles_add(evs, sync, c as u8) == (self.singles@[c]
                        - s0[c]) + stream_singles_add(evs.skip(i as int), sync, c as u8),
                forall|idx: int| 0 <= idx < i ==> (#[trigger] evs[idx]).0 < NUM_CHANNELS,
                forall|c: int| 0 <= c < 8 ==> s0[c] <= (#[trigger] self.singles@[c]) <= s0[c] + i,
                forall|k: int|
                    0 <= k < 29 ==> c0[k] <= self.coincidences@[k] && self.coincidences@[k] - c0[k]
                        <= i as int * (q0.len() + i as int),
                self.pending_syncs@.len() <= q0.len() + i as int,
            decreases n - i,
        {
            let channel: u8 = events[i].0;
            let time: u64 = events[i].1;
            proof {
                assert(evs.skip(i as int)[0] == evs[i as int]);
                assert(evs.skip(i as int).skip(1) =~= evs.skip(i as int + 1));
            }
            if channel >= NUM_CHANNELS {
                return false;
            }
            if channel != self.sync_channel {
                if self.singles[channel as usize] == u64::MAX {
                    proof {
                        if channels_in_range(evs) && counters_headroom(
                            s0,
                            c0,
                            q0.len() as int,
                            n as int,
                        ) {
                            assert(s0[channel as int] + n as int <= u64::MAX);
                            assert(false);
                        }
                    }
                    return false;
                }
                let k: usize = coincidence_channels_to_index((self.sync_channel, channel));
                proof {
                    lemma_pair_index_in_range(sync, channel);
                }
                let plen: usize = self.pending_syncs.len();
                if self.coincidences[k] > u64::MAX - (plen as u64) {
                    proof {
                        if channels_in_range(evs) && counters_headroom(
                            s0,
                            c0,
                            q0.len() as int,
                            n as int,
                        ) {
                            assert(c0[k as int] + n as int * (q0.len() + n as int) <= u64::MAX);
                            assert(i as int * (q0.len() + i as int) + (q0.len() + i as int) <= (
                            n as int) * (q0.len() + n as int)) by (nonlinear_arith)
                                requires
                                    0 <= (i as int) < (n as int),
                                    q0.len() >= 0,
                            ;
                            assert(self.coincidences@[k as int] + plen as int <= u64::MAX);
                            assert(false);
                        }
                    }
                    return false;
                }
                proof {
                    lemma_close_count_le_len(self.pending_syncs@, time, w);
                }
            }
            let ghost q_before = self.pending_syncs@;
            let ghost coinc_before = self.coincidences@;
            let ghost singles_before = self.singles@;
            self.process_event(channel, time);
            proof {
                if channel != sync {
                    lemma_drop_count_le_len(q_before, time, w);
                    lemma_close_count_le_len(q_before, time, w);
                    assert(i as int * (q0.len() + i as int) + (q0.len() + i as int) <= (i as int
                        + 1) * (q0.len() + i as int + 1)) by (nonlinear_arith)
                        requires
                            0 <= (i as int),
                            q0.len() >= 0,
                    ;
                } else {
                    assert(i as int * (q0.len() + i as int) <= (i as int + 1) * (q0.len() + i as int
                        + 1)) by (nonlinear_arith)
                        requires
                            0 <= (i as int),
                            q0.len() >= 0,
                    ;
                }
            }
            i = i + 1;
        }
        proof {
            assert(evs.skip(n as int) =~= Seq::<(u8, u64)>::empty());
        }
        true
    }
}

} // verus!
