//! The acquisition loop: drive a device through one measurement run, pull
//! raw word bursts out of its FIFO, and fold them through the decoder and
//! the streaming coincidence engine.
//!
//! The device is reached only through the `Measureable` capability trait, so
//! a test double can stand in for real hardware. A FIFO overflow flag aborts
//! the run: data already lost makes the partial counts non-authoritative.

use vstd::prelude::*;

use crate::coincidence::sorted_by_time;
use crate::measurement::{Measureable, Measurement};
use crate::streaming::{
    lemma_stream_coinc_sentinel_zero, lemma_stream_singles_sync_zero, SyncCoincidenceCounter,
};
use crate::types::{CTCStatus, HydraHarpError};

verus! {

/// Device flag bit signalling an unrecoverable FIFO overflow.
pub const FLAG_FIFOFULL: i32 = 2;

/// Number of records requested from the FIFO per read.
pub const READ_BURST: usize = 131072;

/// Swapping two positions of a sequence leaves its multiset of elements.
proof fn lemma_swap_multiset(s: Seq<(u8, u64)>, p: int, q: int)
    requires
        0 <= p < q < s.len(),
    ensures
        s.update(p, s[q]).update(q, s[p]).to_multiset() == s.to_multiset(),
{
    broadcast use vstd::seq_lib::group_to_multiset_ensures;
    broadcast use vstd::multiset::group_multiset_axioms;

    let s1 = s.update(p, s[q]);
    assert(s1[q] == s[q]);
    assert(s.contains(s[p]));
    assert(s1.contains(s1[p]));
    assert(s.update(p, s[q]).update(q, s[p]).to_multiset() =~= s.to_multiset());
}

/// Sort the events of a burst ascending by timestamp, keeping exactly the
/// same multiset of events.
pub fn sort_events_by_time(events: &mut Vec<(u8, u64)>)
    ensures
        final(events)@.len() == old(events)@.len(),
        sorted_by_time(final(events)@),
        final(events)@.to_multiset() == old(events)@.to_multiset(),
{
    let ghost orig = events@;
    let n: usize = events.len();
    if n < 2 {
        return ;
    }
    let mut i: usize = 1;
    while i < n
        invariant
            1 <= i <= n,
            n == events@.len(),
            events@.to_multiset() == orig.to_multiset(),
            sorted_by_time(events@.take(i as int)),
        decreases n - i,
    {
        let mut j: usize = i;
        proof {
            assert forall|a: int, b: int|
                #![trigger events@[a], events@[b]]
                0 <= a < b <= i && b != j implies events@[a].1 <= events@[b].1 by {
                assert(events@.take(i as int)[a] == events@[a]);
                assert(events@.take(i as int)[b] == events@[b]);
            }
        }
        while j > 0 && events[j - 1].1 > events[j].1
            invariant
                j <= i < n,
                n == events@.len(),
                events@.to_multiset() == orig.to_multiset(),
                forall|a: int, b: int|
                    #![trigger events@[a], events@[b]]
                    0 <= a < b <= i && b != j ==> events@[a].1 <= events@[b].1,
            decreases j,
        {
            let ghost before = events@;
            let prev: (u8, u64) = events[j - 1];
            let cur: (u8, u64) = events[j];
            events.set(j - 1, cur);
            events.set(j, prev);
            proof {
                lemma_swap_multiset(before, j as int - 1, j as int);
            }
            j = j - 1;
        }
        proof {
            assert forall|a: int, b: int|
                #![trigger events@.take(i as int + 1)[a], events@.take(i as int + 1)[b]]
                0 <= a < b <= i implies events@[a].1 <= events@[b].1 by {
                if b == j {
                    assert(j > 0);
                    if a < j - 1 {
                        assert(events@[a].1 <= events@[j - 1].1);
                    }
                }
            }
        }
        i = i + 1;
    }
    proof {
        assert(events@.take(n as int) =~= events@);
    }
}

/// Run one measurement and collect every raw FIFO word of the run.
///
/// Aborts with `UnknownError` when the device reports a FIFO overflow, and
/// propagates any device error. The poll budget bounds an acquisition that
/// never ends, so a stuck run cannot hang the caller forever.
pub fn run_measurement_and_wait_till_finished<M: Measureable>(time: u32, dev: &mut M) -> Result<
    Vec<u32>,
    HydraHarpError,
>
    requires
        time <= i32::MAX as u32,
{
    dev.start_measurement(time as i32)?;
    let mut burst: Vec<u32> = Vec::new();
    let mut fill: usize = 0;
    while fill < READ_BURST
        invariant
            fill <= READ_BURST,
            burst@.len() == fill,
        decreases READ_BURST - fill,
    {
        burst.push(0);
        fill = fill + 1;
    }
    let mut output: Vec<u32> = Vec::new();
    let mut budget: u64 = u64::MAX;
    loop
        invariant
            burst@.len() == READ_BURST,
        decreases budget,
    {
        if budget == 0 {
            return Err(HydraHarpError::UnknownError);
        }
        budget = budget - 1;
        let flags: i32 = dev.get_flags()?;
        if flags & FLAG_FIFOFULL != 0 {
            return Err(HydraHarpError::UnknownError);
        }
        let num_read: i32 = dev.read_fifo(&mut burst, READ_BURST as i32)?;
        if num_read > 0 {
            let n: usize = num_read as usize;
            let mut k: usize = 0;
            while k < n
                invariant
                    k <= n,
                    n <= burst@.len(),
                decreases n - k,
            {
                output.push(burst[k]);
                k = k + 1;
            }
        } else {
            match dev.get_CTC_status()? {
                CTCStatus::Ended => {
                    return Ok(output);
                }
                CTCStatus::Running => {}
            }
        }
    }
}

/// Run one measurement, streaming the decoded events through the
/// sync-relative coincidence engine, and return the singles and coincidence
/// tallies.
///
/// Each burst is decoded against the running overflow epoch, sorted by
/// timestamp, and folded into the engine. The run is aborted with
/// `UnknownError` when the device reports a FIFO overflow, when a timestamp
/// would exceed `u64`, or when a decoded channel or a tally is out of range
/// for the engine; any device error is propagated.
pub fn run_streaming_acquisition<M: Measureable>(
    dev: &mut M,
    acquisition_time: i32,
    coincidence_window: u64,
    sync_channel: u8,
) -> (r: Result<([u64; 8], [u64; 29]), HydraHarpError>)
    requires
        sync_channel < 8,
    ensures
        r matches Ok(counts) ==> counts.0@[sync_channel as int] == 0 && counts.1@[28] == 0,
{
    dev.start_measurement(acquisition_time)?;
    let mut measurement = Measurement::new(0);
    let mut engine = SyncCoincidenceCounter::new(coincidence_window, sync_channel);
    let mut burst: Vec<u32> = Vec::new();
    let mut fill: usize = 0;
    while fill < READ_BURST
        invariant
            fill <= READ_BURST,
            burst@.len() == fill,
        decreases READ_BURST - fill,
    {
        burst.push(0);
        fill = fill + 1;
    }
    let mut budget: u64 = u64::MAX;
    loop
        invariant
            burst@.len() == READ_BURST,
            engine.sync_channel == sync_channel,
            sync_channel < 8,
            engine.singles@[sync_channel as int] == 0,
            engine.coincidences@[28] == 0,
        decreases budget,
    {
        if budget == 0 {
            return Err(HydraHarpError::UnknownError);
        }
        budget = budget - 1;
        let flags: i32 = dev.get_flags()?;
        if flags & FLAG_FIFOFULL != 0 {
            return Err(HydraHarpError::UnknownError);
        }
        let num_read: i32 = dev.read_fifo(&mut burst, READ_BURST as i32)?;
        if num_read > 0 {
            let n: usize = num_read as usize;
            let words: &[u32] = vstd::slice::slice_subrange(burst.as_slice(), 0, n);
            let converted: Option<Vec<(u8, u64)>> = measurement.try_convert_values_T2(words);
            match converted {
                Some(mut channel_times) => {
                    sort_events_by_time(&mut channel_times);
                    let ghost pending_before = engine.pending_syncs@;
                    let ghost window_before = engine.window;
                    let ok: bool = engine.process_events(channel_times.as_slice());
                    if !ok {
                        return Err(HydraHarpError::UnknownError);
                    }
                    proof {
                        lemma_stream_singles_sync_zero(channel_times@, sync_channel);
                        lemma_stream_coinc_sentinel_zero(
                            pending_before,
                            channel_times@,
                            window_before,
                            sync_channel,
                        );
                    }
                }
                None => {
                    return Err(HydraHarpError::UnknownError);
                }
            }
        } else {
            match dev.get_CTC_status()? {
                CTCStatus::Ended => {
                    return Ok((engine.singles, engine.coincidences));
                }
                CTCStatus::Running => {}
            }
        }
    }
}

} // verus!
