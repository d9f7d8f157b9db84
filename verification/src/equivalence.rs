//! Agreement of the streaming counter with the batch counter.
//!
//! Over a time-sorted event stream the streaming engine detects exactly the
//! sync-vs-other coincidences that the batch counter does, with two caveats
//! stated as hypotheses: the streaming gap test is inclusive where the batch
//! test is strict, so no sync-first pair may sit exactly on the window
//! boundary; and the streaming engine only pairs a sync with later events, so
//! every pair whose sync arrives second must lie outside the window.

use vstd::prelude::*;

use crate::coincidence::{
    channels_in_range, coinc_row, coinc_total, count_singles, pair_hit, sorted_by_time,
};
use crate::pairs::pair_index_spec;
use crate::streaming::{
    close_count, drop_count, lemma_drop_count_le_len, stream_coinc_add, stream_singles_add,
};

verus! {

/// Queue entries never decrease from front to back.
spec fn sorted_queue(queue: Seq<u64>) -> bool {
    forall|i: int, j: int|
        #![trigger queue[i], queue[j]]
        0 <= i < j < queue.len() ==> queue[i] <= queue[j]
}

/// Timestamps of the sync-channel events of the sequence, in order.
spec fn sync_times(events: Seq<(u8, u64)>, sync_channel: u8) -> Seq<u64>
    decreases events.len(),
{
    if events.len() == 0 {
        Seq::empty()
    } else {
        let st = sync_times(events.drop_last(), sync_channel);
        if events.last().0 == sync_channel {
            st.push(events.last().1)
        } else {
            st
        }
    }
}

/// Distinct valid channel pairs have distinct pair indices.
pub proof fn lemma_pair_index_injective(a: u8, b: u8, x: u8, y: u8)
    requires
        a < 8,
        b < 8,
        x < 8,
        y < 8,
        a != b,
        x != y,
        pair_index_spec(a, b) == pair_index_spec(x, y),
    ensures
        (a == x && b == y) || (a == y && b == x),
{
    let lo1 = if a < b { a as int } else { b as int };
    let hi1 = if a < b { b as int } else { a as int };
    let lo2 = if x < y { x as int } else { y as int };
    let hi2 = if x < y { y as int } else { x as int };
    assert(lo1 == lo2 && hi1 == hi2) by (nonlinear_arith)
        requires
            0 <= lo1 < hi1 < 8,
            0 <= lo2 < hi2 < 8,
            lo1 * (15 - lo1) / 2 + hi1 - lo1 - 1 == lo2 * (15 - lo2) / 2 + hi2 - lo2 - 1,
    ;
}

/// Pending syncs within the window of an event at `time`, counted among the
/// events before position `ihi` instead of in a queue.
spec fn sc_col(events: Seq<(u8, u64)>, window: u64, sync_channel: u8, time: u64, ihi: int) -> int
    decreases ihi,
{
    if ihi <= 0 {
        0
    } else {
        sc_col(events, window, sync_channel, time, ihi - 1) + if events[ihi - 1].0 == sync_channel
            && (time as int) - (events[ihi - 1].1 as int) <= (window as int) {
            1int
        } else {
            0int
        }
    }
}

/// Sync-before-`c` pairs within the inclusive window whose later event lies
/// at or past position `m`.
spec fn sc_from(events: Seq<(u8, u64)>, window: u64, sync_channel: u8, c: u8, m: int) -> int
    decreases events.len() - m,
{
    if m < 0 || m >= events.len() {
        0
    } else {
        (if events[m].0 == c {
            sc_col(events, window, sync_channel, events[m].1, m)
        } else {
            0int
        }) + sc_from(events, window, sync_channel, c, m + 1)
    }
}

/// The first `d` pending sync times of the prefix before `m` are beyond the
/// window of every event at or past `m`.
spec fn dead_before(events: Seq<(u8, u64)>, sync_channel: u8, window: u64, m: int, d: int) -> bool {
    forall|idx: int, j: int|
        #![trigger sync_times(events.take(m), sync_channel)[idx], events[j]]
        0 <= idx < d && m <= j < events.len() ==> (events[j].1 as int) - (sync_times(
            events.take(m),
            sync_channel,
        )[idx] as int) > (window as int)
}

/// Close counts add across queue concatenation.
proof fn lemma_close_count_concat(a: Seq<u64>, b: Seq<u64>, time: u64, window: u64)
    ensures
        close_count(a + b, time, window) == close_count(a, time, window) + close_count(
            b,
            time,
            window,
        ),
    decreases b.len(),
{
    if b.len() == 0 {
        assert(a + b =~= a);
    } else {
        assert((a + b).drop_last() =~= a + b.drop_last());
        assert((a + b).last() == b.last());
        lemma_close_count_concat(a, b.drop_last(), time, window);
    }
}

/// A queue whose every entry lies beyond the window contributes nothing.
proof fn lemma_close_count_zero(queue: Seq<u64>, time: u64, window: u64)
    requires
        forall|idx: int|
            0 <= idx < queue.len() ==> (time as int) - ((#[trigger] queue[idx]) as int) > (
            window as int),
    ensures
        close_count(queue, time, window) == 0,
    decreases queue.len(),
{
    if queue.len() > 0 {
        lemma_close_count_zero(queue.drop_last(), time, window);
    }
}

/// In a sorted queue, every entry the scan drops is itself beyond the window.
proof fn lemma_drop_count_stale(queue: Seq<u64>, time: u64, window: u64)
    requires
        sorted_queue(queue),
    ensures
        forall|idx: int|
            0 <= idx < drop_count(queue, time, window) ==> (time as int) - ((#[trigger] queue[idx])
                as int) > (window as int),
    decreases queue.len(),
{
    if queue.len() > 0 {
        if (time as int) - (queue.last() as int) > (window as int) {
            assert forall|idx: int| 0 <= idx < queue.len() implies (time as int) - ((
            #[trigger] queue[idx]) as int) > (window as int) by {
                if idx < queue.len() - 1 {
                    assert(queue[idx] <= queue[queue.len() - 1]);
                }
            }
        } else {
            assert(sorted_queue(queue.drop_last()));
            lemma_drop_count_stale(queue.drop_last(), time, window);
            assert forall|idx: int| 0 <= idx < drop_count(queue, time, window) implies (time as int)
                - ((#[trigger] queue[idx]) as int) > (window as int) by {
                assert(queue.drop_last()[idx] == queue[idx]);
            }
        }
    }
}

/// The sync timestamps of a time-sorted sequence are themselves sorted, and
/// none lies after the sequence's last timestamp.
proof fn lemma_sync_times_sorted(events: Seq<(u8, u64)>, sync_channel: u8)
    requires
        sorted_by_time(events),
    ensures
        sorted_queue(sync_times(events, sync_channel)),
        events.len() > 0 ==> forall|idx: int|
            0 <= idx < sync_times(events, sync_channel).len() ==> (#[trigger] sync_times(
                events,
                sync_channel,
            )[idx]) <= events.last().1,
    decreases events.len(),
{
    if events.len() > 0 {
        let prior = events.drop_last();
        assert(sorted_by_time(prior));
        lemma_sync_times_sorted(prior, sync_channel);
        if prior.len() > 0 {
            assert(prior.last() == events[events.len() - 2]);
            assert(events[events.len() - 2].1 <= events[events.len() - 1].1);
        }
    }
}

/// Counting close pending syncs in the queue of a prefix is counting the
/// close sync events of that prefix.
proof fn lemma_close_count_vs_col(
    events: Seq<(u8, u64)>,
    window: u64,
    sync_channel: u8,
    time: u64,
    m: int,
)
    requires
        0 <= m <= events.len(),
    ensures
        close_count(sync_times(events.take(m), sync_channel), time, window) == sc_col(
            events,
            window,
            sync_channel,
            time,
            m,
        ),
    decreases m,
{
    if m > 0 {
        assert(events.take(m).drop_last() =~= events.take(m - 1));
        assert(events.take(m).last() == events[m - 1]);
        lemma_close_count_vs_col(events, window, sync_channel, time, m - 1);
        let st = sync_times(events.take(m - 1), sync_channel);
        if events[m - 1].0 == sync_channel {
            let pushed = st.push(events[m - 1].1);
            assert(sync_times(events.take(m), sync_channel) == pushed);
            assert(pushed.drop_last() =~= st);
            assert(pushed.last() == events[m - 1].1);
        }
    }
}

/// Appending to a queue commutes with dropping its front.
proof fn lemma_push_skip(s: Seq<u64>, x: u64, d: int)
    requires
        0 <= d <= s.len(),
    ensures
        s.push(x).skip(d) == s.skip(d).push(x),
{
    assert(s.push(x).skip(d) =~= s.skip(d).push(x));
}

/// Dropping a front twice is dropping it once, further.
proof fn lemma_skip_skip(s: Seq<u64>, a: int, b: int)
    requires
        0 <= a,
        0 <= b,
        a + b <= s.len(),
    ensures
        s.skip(a).skip(b) == s.skip(a + b),
{
    assert(s.skip(a).skip(b) =~= s.skip(a + b));
}

/// Streaming from position `m`, with the pending queue holding the prefix's
/// sync times less `d` dropped-and-dead entries, adds to the pair's slot
/// exactly the inclusive-window sync-before-`c` pairs whose later event lies
/// at or past `m`.
proof fn lemma_stream_counts_sync_pairs(
    events: Seq<(u8, u64)>,
    window: u64,
    sync_channel: u8,
    c: u8,
    m: int,
    d: int,
)
    requires
        sorted_by_time(events),
        channels_in_range(events),
        sync_channel < 8,
        c < 8,
        c != sync_channel,
        0 <= m <= events.len(),
        0 <= d <= sync_times(events.take(m), sync_channel).len(),
        dead_before(events, sync_channel, window, m, d),
    ensures
        stream_coinc_add(
            sync_times(events.take(m), sync_channel).skip(d),
            events.skip(m),
            window,
            sync_channel,
            pair_index_spec(sync_channel, c),
        ) == sc_from(events, window, sync_channel, c, m),
    decreases events.len() - m,
{
    let k = pair_index_spec(sync_channel, c);
    let st = sync_times(events.take(m), sync_channel);
    let q = st.skip(d);
    if m == events.len() {
        assert(events.skip(m) =~= Seq::<(u8, u64)>::empty());
    } else {
        let ev = events[m];
        let t = ev.1;
        assert(events.skip(m)[0] == ev);
        assert(events.skip(m).skip(1) =~= events.skip(m + 1));
        assert(events.take(m + 1).drop_last() =~= events.take(m));
        assert(events.take(m + 1).last() == ev);
        assert(ev.0 < 8);
        if ev.0 == sync_channel {
            let st2 = sync_times(events.take(m + 1), sync_channel);
            assert(st2 == st.push(t));
            lemma_push_skip(st, t, d);
            assert(dead_before(events, sync_channel, window, m + 1, d)) by {
                assert forall|idx: int, j: int|
                    #![trigger st2[idx], events[j]]
                    0 <= idx < d && m + 1 <= j < events.len() implies (events[j].1 as int) - (
                    st2[idx] as int) > (window as int) by {
                    assert(st2[idx] == st[idx]);
                    assert((events[j].1 as int) - (st[idx] as int) > (window as int));
                }
            }
            lemma_stream_counts_sync_pairs(events, window, sync_channel, c, m + 1, d);
        } else {
            let dc = drop_count(q, t, window);
            lemma_drop_count_le_len(q, t, window);
            assert(sorted_by_time(events.take(m))) by {
                assert forall|i: int, j: int|
                    #![trigger events.take(m)[i], events.take(m)[j]]
                    0 <= i < j < m implies events.take(m)[i].1 <= events.take(m)[j].1 by {
                    assert(events[i].1 <= events[j].1);
                }
            }
            lemma_sync_times_sorted(events.take(m), sync_channel);
            assert(sorted_queue(q)) by {
                assert forall|i: int, j: int|
                    #![trigger q[i], q[j]]
                    0 <= i < j < q.len() implies q[i] <= q[j] by {
                    assert(q[i] == st[i + d]);
                    assert(q[j] == st[j + d]);
                }
            }
            lemma_drop_count_stale(q, t, window);
            let st2 = sync_times(events.take(m + 1), sync_channel);
            assert(st2 == st);
            lemma_skip_skip(st, d, dc);
            assert(dead_before(events, sync_channel, window, m + 1, d + dc)) by {
                assert forall|idx: int, j: int|
                    #![trigger st2[idx], events[j]]
                    0 <= idx < d + dc && m + 1 <= j < events.len() implies (events[j].1 as int) - (
                    st2[idx] as int) > (window as int) by {
                    if idx < d {
                        assert((events[j].1 as int) - (st[idx] as int) > (window as int));
                    } else {
                        assert(q[idx - d] == st[idx]);
                        assert((t as int) - (q[idx - d] as int) > (window as int));
                        assert(events[m].1 <= events[j].1);
                    }
                }
            }
            lemma_stream_counts_sync_pairs(events, window, sync_channel, c, m + 1, d + dc);
            if pair_index_spec(sync_channel, ev.0) == k {
                lemma_pair_index_injective(sync_channel, ev.0, sync_channel, c);
                assert(ev.0 == c);
                assert(st =~= st.take(d) + st.skip(d));
                lemma_close_count_concat(st.take(d), q, t, window);
                assert forall|idx: int|
                    0 <= idx < st.take(d).len() implies (t as int) - ((#[trigger] st.take(
                    d,
                )[idx]) as int) > (window as int) by {
                    assert(st.take(d)[idx] == st[idx]);
                    assert((events[m].1 as int) - (st[idx] as int) > (window as int));
                }
                lemma_close_count_zero(st.take(d), t, window);
                lemma_close_count_vs_col(events, window, sync_channel, t, m);
            } else {
                assert(ev.0 != c);
            }
        }
    }
}

/// Batch coincidences of slot `k` between event `j` and the earlier events
/// `i < ihi`.
spec fn batch_col(events: Seq<(u8, u64)>, window: u64, k: int, j: int, ihi: int) -> int
    decreases ihi,
{
    if ihi <= 0 {
        0
    } else {
        batch_col(events, window, k, j, ihi - 1) + if pair_hit(events, window, k, ihi - 1, j) {
            1int
        } else {
            0int
        }
    }
}

/// Batch coincidences of slot `k` summed per later event `j` in `[m, jhi)`.
spec fn col_sum(events: Seq<(u8, u64)>, window: u64, k: int, m: int, jhi: int) -> int
    decreases jhi - m,
{
    if m < 0 || m >= jhi {
        0
    } else {
        batch_col(events, window, k, m, m) + col_sum(events, window, k, m + 1, jhi)
    }
}

/// Batch coincidences of slot `k` summed per earlier event `i < ihi`, with
/// the partner scan cut at `jhi`.
spec fn coinc_total_bounded(events: Seq<(u8, u64)>, window: u64, k: int, ihi: int, jhi: int) -> int
    decreases ihi,
{
    if ihi <= 0 {
        0
    } else {
        coinc_total_bounded(events, window, k, ihi - 1, jhi) + coinc_row(
            events,
            window,
            k,
            ihi - 1,
            jhi,
        )
    }
}

/// With the partner scan running to the end, the bounded sum is the batch
/// tally itself.
proof fn lemma_total_vs_bounded(events: Seq<(u8, u64)>, window: u64, k: int, ihi: int)
    ensures
        coinc_total(events, window, k, ihi) == coinc_total_bounded(
            events,
            window,
            k,
            ihi,
            events.len() as int,
        ),
    decreases ihi,
{
    if ihi > 0 {
        lemma_total_vs_bounded(events, window, k, ihi - 1);
    }
}

/// Widening every row's partner scan by one event adds that event's column.
proof fn lemma_bounded_peel_col(events: Seq<(u8, u64)>, window: u64, k: int, ihi: int, jhi: int)
    requires
        0 <= ihi < jhi,
    ensures
        coinc_total_bounded(events, window, k, ihi, jhi) == coinc_total_bounded(
            events,
            window,
            k,
            ihi,
            jhi - 1,
        ) + batch_col(events, window, k, jhi - 1, ihi),
    decreases ihi,
{
    if ihi > 0 {
        lemma_bounded_peel_col(events, window, k, ihi - 1, jhi);
    }
}

/// The per-later-event sum also grows by one column at its upper end.
proof fn lemma_col_sum_peel_last(events: Seq<(u8, u64)>, window: u64, k: int, m: int, jhi: int)
    requires
        0 <= m < jhi,
    ensures
        col_sum(events, window, k, m, jhi) == col_sum(events, window, k, m, jhi - 1) + batch_col(
            events,
            window,
            k,
            jhi - 1,
            jhi - 1,
        ),
    decreases jhi - m,
{
    if m < jhi - 1 {
        lemma_col_sum_peel_last(events, window, k, m + 1, jhi);
    } else {
        assert(col_sum(events, window, k, m + 1, jhi) == 0);
        assert(col_sum(events, window, k, m, jhi - 1) == 0);
    }
}

/// Counting the batch tally by earlier event or by later event agrees.
proof fn lemma_rows_vs_cols(events: Seq<(u8, u64)>, window: u64, k: int, n: int)
    requires
        0 <= n,
    ensures
        coinc_total_bounded(events, window, k, n, n) == col_sum(events, window, k, 0, n),
    decreases n,
{
    if n > 0 {
        lemma_rows_vs_cols(events, window, k, n - 1);
        lemma_bounded_peel_col(events, window, k, n - 1, n);
        lemma_col_sum_peel_last(events, window, k, 0, n);
        assert(coinc_row(events, window, k, n - 1, n) == 0);
    }
}

/// No pair of a sync event and a later `c` event sits exactly on the window
/// boundary.
pub open spec fn no_boundary_sync_first(
    events: Seq<(u8, u64)>,
    window: u64,
    sync_channel: u8,
    c: u8,
) -> bool {
    forall|i: int, j: int|
        #![trigger events[i], events[j]]
        0 <= i < j < events.len() && events[i].0 == sync_channel && events[j].0 == c ==> (
        events[j].1 as int) - (events[i].1 as int) != (window as int)
}

/// Every pair of a `c` event and a later sync event lies outside the window.
pub open spec fn no_window_sync_second(
    events: Seq<(u8, u64)>,
    window: u64,
    sync_channel: u8,
    c: u8,
) -> bool {
    forall|i: int, j: int|
        #![trigger events[i], events[j]]
        0 <= i < j < events.len() && events[i].0 == c && events[j].0 == sync_channel ==> (
        events[j].1 as int) - (events[i].1 as int) >= (window as int)
}

/// Against one later event, the batch column and the inclusive-window sync
/// column agree under the two boundary hypotheses.
proof fn lemma_col_match(
    events: Seq<(u8, u64)>,
    window: u64,
    sync_channel: u8,
    c: u8,
    j: int,
    ihi: int,
)
    requires
        sync_channel < 8,
        c < 8,
        c != sync_channel,
        0 <= ihi <= j < events.len(),
        no_boundary_sync_first(events, window, sync_channel, c),
        no_window_sync_second(events, window, sync_channel, c),
    ensures
        batch_col(events, window, pair_index_spec(sync_channel, c), j, ihi) == if events[j].0 == c {
            sc_col(events, window, sync_channel, events[j].1, ihi)
        } else {
            0int
        },
    decreases ihi,
{
    let k = pair_index_spec(sync_channel, c);
    if ihi > 0 {
        lemma_col_match(events, window, sync_channel, c, j, ihi - 1);
        let i = ihi - 1;
        let ei = events[i];
        let ej = events[j];
        crate::pairs::lemma_pair_index_in_range(sync_channel, c);
        if ej.0 == c {
            if ei.0 == sync_channel {
                assert((ej.1 as int) - (ei.1 as int) != (window as int));
            } else {
                if pair_index_spec(ei.0, ej.0) == k {
                    lemma_pair_index_injective(ei.0, ej.0, sync_channel, c);
                    assert(false);
                }
            }
        } else {
            if pair_hit(events, window, k, i, j) {
                lemma_pair_index_injective(ei.0, ej.0, sync_channel, c);
                assert(ei.0 == c && ej.0 == sync_channel);
                assert((ej.1 as int) - (ei.1 as int) >= (window as int));
                assert(false);
            }
        }
    }
}

/// Summed over every later event, the batch tally and the inclusive-window
/// sync-pair count agree under the two boundary hypotheses.
proof fn lemma_col_sums_match(events: Seq<(u8, u64)>, window: u64, sync_channel: u8, c: u8, m: int)
    requires
        sync_channel < 8,
        c < 8,
        c != sync_channel,
        0 <= m,
        no_boundary_sync_first(events, window, sync_channel, c),
        no_window_sync_second(events, window, sync_channel, c),
    ensures
        col_sum(events, window, pair_index_spec(sync_channel, c), m, events.len() as int)
            == sc_from(events, window, sync_channel, c, m),
    decreases events.len() - m,
{
    if m < events.len() {
        lemma_col_match(events, window, sync_channel, c, m, m);
        lemma_col_sums_match(events, window, sync_channel, c, m + 1);
    }
}

/// Streaming mode matches batch mode restricted to sync-vs-other pairs: over
/// a time-sorted stream, what the streaming engine adds to the slot of the
/// pair (sync channel, `c`) from an empty queue equals the batch tally of
/// that slot — provided no sync-before-`c` pair sits exactly on the window
/// boundary (the streaming gap test is inclusive, the batch test strict) and
/// every `c`-before-sync pair lies outside the window (the streaming engine
/// never pairs a sync with an earlier event).
pub proof fn lemma_streaming_matches_batch(
    events: Seq<(u8, u64)>,
    window: u64,
    sync_channel: u8,
    c: u8,
)
    requires
        sorted_by_time(events),
        channels_in_range(events),
        sync_channel < 8,
        c < 8,
        c != sync_channel,
        no_boundary_sync_first(events, window, sync_channel, c),
        no_window_sync_second(events, window, sync_channel, c),
    ensures
        stream_coinc_add(
            Seq::empty(),
            events,
            window,
            sync_channel,
            pair_index_spec(sync_channel, c),
        ) == coinc_total(
            events,
            window,
            pair_index_spec(sync_channel, c),
            events.len() as int,
        ),
{
    let n = events.len() as int;
    let k = pair_index_spec(sync_channel, c);
    assert(events.take(0) =~= Seq::<(u8, u64)>::empty());
    assert(sync_times(events.take(0), sync_channel) =~= Seq::<u64>::empty());
    assert(sync_times(events.take(0), sync_channel).skip(0) =~= Seq::<u64>::empty());
    assert(events.skip(0) =~= events);
    lemma_stream_counts_sync_pairs(events, window, sync_channel, c, 0, 0);
    lemma_total_vs_bounded(events, window, k, n);
    lemma_rows_vs_cols(events, window, k, n);
    lemma_col_sums_match(events, window, sync_channel, c, 0);
}

/// One appended event bumps the streaming singles of its own channel alone.
proof fn lemma_stream_singles_push(
    events: Seq<(u8, u64)>,
    x: (u8, u64),
    sync_channel: u8,
    c: u8,
)
    ensures
        stream_singles_add(events.push(x), sync_channel, c) == stream_singles_add(
            events,
            sync_channel,
            c,
        ) + if x.0 == c && c != sync_channel {
            1int
        } else {
            0int
        },
    decreases events.len(),
{
    if events.len() == 0 {
        assert(events.push(x)[0] == x);
        assert(events.push(x).skip(1) =~= events);
    } else {
        assert(events.push(x)[0] == events[0]);
        assert(events.push(x).skip(1) =~= events.skip(1).push(x));
        lemma_stream_singles_push(events.skip(1), x, sync_channel, c);
    }
}

/// On every channel other than the sync channel, the streaming engine tallies
/// exactly the singles the batch counter does.
pub proof fn lemma_streaming_singles_match_batch(
    events: Seq<(u8, u64)>,
    sync_channel: u8,
    c: u8,
)
    requires
        c != sync_channel,
    ensures
        stream_singles_add(events, sync_channel, c) == count_singles(events, c),
    decreases events.len(),
{
    if events.len() > 0 {
        lemma_streaming_singles_match_batch(events.drop_last(), sync_channel, c);
        lemma_stream_singles_push(events.drop_last(), events.last(), sync_channel, c);
        assert(events.drop_last().push(events.last()) =~= events);
    }
}

} // verus!
