//! All-pairs batch coincidence counting over a time-sorted event stream.
//!
//! Events are `(channel, timestamp)` pairs sorted ascending by timestamp.
//! Two events of distinct channels are coincident when the later timestamp is
//! less than `window` past the earlier (strict `<`, so a zero window never
//! matches). Tallies are kept per channel (singles) and per canonical
//! channel-pair index (coincidences), with the sentinel slot left at zero.

use vstd::prelude::*;

use crate::pairs::{
    coincidence_channels_to_index, lemma_pair_index_in_range, pair_index_spec, NUM_CHANNELS,
};

verus! {

/// Timestamps never decrease along the sequence.
pub open spec fn sorted_by_time(events: Seq<(u8, u64)>) -> bool {
    forall|i: int, j: int|
        #![trigger events[i], events[j]]
        0 <= i < j < events.len() ==> events[i].1 <= events[j].1
}

/// Every event's channel id is a valid counting channel.
pub open spec fn channels_in_range(events: Seq<(u8, u64)>) -> bool {
    forall|k: int| 0 <= k < events.len() ==> (#[trigger] events[k]).0 < NUM_CHANNELS
}

/// How many events of the sequence lie on channel `c`.
pub open spec fn count_singles(events: Seq<(u8, u64)>, c: u8) -> int
    decreases events.len(),
{
    if events.len() == 0 {
        0
    } else {
        count_singles(events.drop_last(), c) + if events.last().0 == c {
            1int
        } else {
            0int
        }
    }
}

/// The ordered pair `(i, j)` counts towards pair index `k`: its channels form
/// that canonical pair and the later event falls strictly inside the window.
pub open spec fn pair_hit(events: Seq<(u8, u64)>, window: u64, k: int, i: int, j: int) -> bool {
    &&& pair_index_spec(events[i].0, events[j].0) == k
    &&& (events[j].1 as int) - (events[i].1 as int) < (window as int)
}

/// Coincidences of pair index `k` between event `i` and the events `j` with
/// `i < j < jhi`.
pub open spec fn coinc_row(events: Seq<(u8, u64)>, window: u64, k: int, i: int, jhi: int) -> int
    decreases jhi - i,
{
    if jhi <= i + 1 {
        0
    } else {
        coinc_row(events, window, k, i, jhi - 1) + if pair_hit(events, window, k, i, jhi - 1) {
            1int
        } else {
            0int
        }
    }
}

/// Coincidences of pair index `k` over all pairs whose earlier event lies
/// before `ihi`.
pub open spec fn coinc_total(events: Seq<(u8, u64)>, window: u64, k: int, ihi: int) -> int
    decreases ihi,
{
    if ihi <= 0 {
        0
    } else {
        coinc_total(events, window, k, ihi - 1) + coinc_row(
            events,
            window,
            k,
            ihi - 1,
            events.len() as int,
        )
    }
}

/// Once every event from `j` on lies at or beyond the window from event `i`,
/// the row count stops growing at `j`.
proof fn lemma_coinc_row_tail(
    events: Seq<(u8, u64)>,
    window: u64,
    k: int,
    i: int,
    j: int,
    jhi: int,
)
    requires
        0 <= i < j <= jhi <= events.len(),
        forall|jj: int|
            #![trigger events[jj]]
            j <= jj < jhi ==> events[jj].1 as int - events[i].1 as int >= (window as int),
    ensures
        coinc_row(events, window, k, i, jhi) == coinc_row(events, window, k, i, j),
    decreases jhi - j,
{
    if jhi > j {
        lemma_coinc_row_tail(events, window, k, i, j, jhi - 1);
    }
}

/// With a zero-width window no row counts anything: the strict `<` bound can
/// never hold between time-sorted events.
proof fn lemma_zero_window_row(events: Seq<(u8, u64)>, k: int, i: int, jhi: int)
    requires
        sorted_by_time(events),
        0 <= i,
        jhi <= events.len(),
    ensures
        coinc_row(events, 0, k, i, jhi) == 0,
    decreases jhi - i,
{
    if jhi > i + 1 {
        lemma_zero_window_row(events, k, i, jhi - 1);
        assert(events[i].1 <= events[jhi - 1].1);
    }
}

/// With window `W = 0` the coincidence tally is zero for every pair index,
/// whatever the (time-sorted) input events.
pub proof fn lemma_zero_window_no_coincidences(events: Seq<(u8, u64)>, k: int, ihi: int)
    requires
        sorted_by_time(events),
        ihi <= events.len(),
    ensures
        coinc_total(events, 0, k, ihi) == 0,
    decreases ihi,
{
    if ihi > 0 {
        lemma_zero_window_no_coincidences(events, k, ihi - 1);
        lemma_zero_window_row(events, k, ihi - 1, events.len() as int);
    }
}

/// Sort out a vector of channels and times into an array of singles and an
/// array of coincidences.
///
/// `singles[c]` counts the events on channel `c`; `coincidences[k]` counts,
/// for each pair of events of distinct channels whose unordered channel pair
/// has index `k`, the pairs closer together than `coincidence_window`. The
/// sentinel slot stays zero.
pub fn singles_and_two_way_coincidences(coincidence_window: u64, times: &[(u8, u64)]) -> (r: (
    [u64; 8],
    [u64; 29],
))
    requires
        sorted_by_time(times@),
        channels_in_range(times@),
        times@.len() < 0x1_0000_0000,
    ensures
        forall|c: int| 0 <= c < 8 ==> r.0@[c] == count_singles(times@, c as u8),
        forall|k: int|
            0 <= k < 28 ==> r.1@[k] == coinc_total(
                times@,
                coincidence_window,
                k,
                times@.len() as int,
            ),
        r.1@[28] == 0,
{
    let ghost all = times@;
    let mut singles: [u64; 8] = [0u64; 8];
    let mut coincidences: [u64; 29] = [0u64; 29];
    let n: usize = times.len();
    let mut i: usize = 0;
    while i < n
        invariant
            i <= n,
            n == all.len(),
            all == times@,
            n < 0x1_0000_0000,
            sorted_by_time(all),
            channels_in_range(all),
            forall|c: int| 0 <= c < 8 ==> singles@[c] == count_singles(all.take(i as int), c as u8),
            forall|c: int| 0 <= c < 8 ==> singles@[c] <= i,
            forall|k: int|
                0 <= k < 28 ==> coincidences@[k] == coinc_total(all, coincidence_window, k, i as int),
            forall|k: int| 0 <= k < 29 ==> coincidences@[k] <= i as int * n as int,
            coincidences@[28] == 0,
        decreases n - i,
    {
        let c1: u8 = times[i].0;
        let t1: u64 = times[i].1;
        proof {
            assert(all.take(i as int + 1).drop_last() =~= all.take(i as int));
        }
        singles[c1 as usize] = singles[c1 as usize] + 1;
        let ghost base = coincidences@;
        let ghost singles_snap = singles@;
        let mut j: usize = i + 1;
        while j < n
            invariant
                i < j <= n,
                n == all.len(),
                all == times@,
                n < 0x1_0000_0000,
                sorted_by_time(all),
                channels_in_range(all),
                c1 == all[i as int].0,
                t1 == all[i as int].1,
                singles@ == singles_snap,
                forall|k: int|
                    0 <= k < 28 ==> coincidences@[k] == base[k] + coinc_row(
                        all,
                        coincidence_window,
                        k,
                        i as int,
                        j as int,
                    ),
                forall|k: int| 0 <= k < 29 ==> base[k] <= i as int * n as int,
                forall|k: int| 0 <= k < 29 ==> coincidences@[k] <= i as int * n as int + (j - i - 1),
                coincidences@[28] == 0,
            ensures
                j <= n,
                singles@ == singles_snap,
                forall|k: int|
                    0 <= k < 28 ==> coincidences@[k] == base[k] + coinc_row(
                        all,
                        coincidence_window,
                        k,
                        i as int,
                        n as int,
                    ),
                forall|k: int| 0 <= k < 29 ==> coincidences@[k] <= i as int * n as int + (n - i),
                coincidences@[28] == 0,
            decreases n - j,
        {
            let c2: u8 = times[j].0;
            let t2: u64 = times[j].1;
            proof {
                assert(all[i as int].1 <= all[j as int].1);
            }
            if t2 - t1 < coincidence_window {
                if c2 != c1 {
                    proof {
                        lemma_pair_index_in_range(c1, c2);
                        assert(i as int * n as int + (j - i - 1) + 1 < 0xFFFF_FFFF_FFFF_FFFF)
                            by (nonlinear_arith)
                            requires
                                0 <= (i as int) < (n as int),
                                (i as int) < (j as int) <= (n as int),
                                (n as int) < 0x1_0000_0000,
                        ;
                    }
                    let k: usize = coincidence_channels_to_index((c1, c2));
                    coincidences[k] = coincidences[k] + 1;
                }
                j = j + 1;
            } else {
                proof {
                    assert forall|k: int| 0 <= k < 28 implies coincidences@[k] == base[k]
                        + coinc_row(all, coincidence_window, k, i as int, n as int) by {
                        assert forall|jj: int|
                            #![trigger all[jj]]
                            j as int <= jj < n as int implies all[jj].1 as int - all[i as int].1
                            as int >= (coincidence_window as int) by {
                            assert(all[j as int].1 <= all[jj].1);
                        }
                        lemma_coinc_row_tail(
                            all,
                            coincidence_window,
                            k,
                            i as int,
                            j as int,
                            n as int,
                        );
                    }
                }
                break ;
            }
        }
        proof {
            assert(i as int * n as int + (n as int - i as int) <= (i as int + 1) * n as int)
                by (nonlinear_arith)
                requires
                    0 <= (i as int) < (n as int),
            ;
        }
        i = i + 1;
    }
    proof {
        assert(all.take(n as int) =~= all);
    }
    (singles, coincidences)
}

} // verus!
