//! Decoding of raw T2-mode event words and accumulation of rollover epochs
//! into globally monotonic timestamps.
//!
//! A raw record is a 32-bit word: bit 31 flags a special record, bits 25-30
//! select a channel (ordinary records) or a marker type (special records),
//! and the low bits carry a local time or a rollover count.

use vstd::prelude::*;

use crate::types::{CTCStatus, HydraHarpError};

verus! {

/// Rollover period of the device's 25-bit local time counter.
pub const OVERFLOW_PERIOD: u64 = 33554432;

/// Bit 31: set on special (non-photon) records.
pub const SPECIAL_MASK: u32 = 0x8000_0000;

/// Bits 25-30: channel id or marker-type selector.
pub const OVERFLOW_MASK: u32 = 0x7E00_0000;

/// Low 24 bits: the usable local time / rollover count payload.
pub const TIME_MASK: u32 = 0x00FF_FFFF;

/// Describes the different types a T2 value can have.
#[derive(Clone, Copy, Debug, PartialEq, Eq, Structural)]
pub enum T2Value {
    /// The u8 is the channel number, the u32 is the local time.
    Time(u8, u32),
    /// The u32 is the local time.
    Sync(u32),
    /// The u32 is the number of rollovers coalesced into this marker.
    Overflow(u32),
    InternalSync(u8),
    ExternalSync(u8),
}

/// Field-level meaning of one raw 32-bit word.
pub open spec fn decode_word(v: u32) -> T2Value {
    if v & SPECIAL_MASK == 0 {
        T2Value::Time(((v >> 25) & 63) as u8, v & TIME_MASK)
    } else if v & OVERFLOW_MASK == OVERFLOW_MASK {
        T2Value::Overflow(v & TIME_MASK)
    } else if v & OVERFLOW_MASK == 0 {
        T2Value::Sync(v & TIME_MASK)
    } else {
        T2Value::InternalSync(0)
    }
}

/// The payload fields of a decoded word fit their hardware widths.
pub proof fn lemma_decode_field_bounds(v: u32)
    ensures
        match decode_word(v) {
            T2Value::Time(c, t) => c <= 63 && t <= TIME_MASK,
            T2Value::Sync(t) => t <= TIME_MASK,
            T2Value::Overflow(c) => c <= TIME_MASK,
            _ => true,
        },
{
    assert(((v >> 25) & 63) <= 63) by (bit_vector);
    assert((v & 0x00FF_FFFF) <= 0x00FF_FFFF) by (bit_vector);
}

/// Converts a single 4 byte phrase into a T2Value.
pub fn convert_T2_value(v: &u32) -> (r: T2Value)
    ensures
        r == decode_word(*v),
{
    let word: u32 = *v;
    if word & SPECIAL_MASK == 0 {
        T2Value::Time(((word >> 25) & 63) as u8, word & TIME_MASK)
    } else if word & OVERFLOW_MASK == OVERFLOW_MASK {
        T2Value::Overflow(word & TIME_MASK)
    } else if word & OVERFLOW_MASK == 0 {
        T2Value::Sync(word & TIME_MASK)
    } else {
        T2Value::InternalSync(0)
    }
}

/// Epoch reached after handling one word: an overflow marker advances the
/// epoch by its rollover count times `OVERFLOW_PERIOD`; all else leaves it.
pub open spec fn word_epoch_step(v: u32, epoch: int) -> int {
    match decode_word(v) {
        T2Value::Overflow(c) => epoch + c as int * OVERFLOW_PERIOD as int,
        _ => epoch,
    }
}

/// Events one word emits at a given epoch: photon and sync records emit one
/// `(channel, global time)` pair — the +1 shift reserves channel 0 for sync —
/// and special records emit nothing.
pub open spec fn word_events(v: u32, epoch: int) -> Seq<(u8, int)> {
    match decode_word(v) {
        T2Value::Time(c, t) => seq![((c + 1) as u8, t as int + epoch)],
        T2Value::Sync(t) => seq![(0u8, t as int + epoch)],
        _ => Seq::empty(),
    }
}

/// Epoch after folding a whole word sequence, starting from `epoch`.
pub open spec fn epoch_after(words: Seq<u32>, epoch: int) -> int
    decreases words.len(),
{
    if words.len() == 0 {
        epoch
    } else {
        epoch_after(words.skip(1), word_epoch_step(words[0], epoch))
    }
}

/// The `(channel, global time)` events a word sequence emits, in input order.
pub open spec fn events_after(words: Seq<u32>, epoch: int) -> Seq<(u8, int)>
    decreases words.len(),
{
    if words.len() == 0 {
        Seq::empty()
    } else {
        word_events(words[0], epoch) + events_after(
            words.skip(1),
            word_epoch_step(words[0], epoch),
        )
    }
}

/// An emitted event list seen with unbounded mathematical timestamps.
pub open spec fn widen_events(times: Seq<(u8, u64)>) -> Seq<(u8, int)> {
    Seq::new(times.len(), |i: int| (times[i].0, times[i].1 as int))
}

/// The accumulated epoch never decreases while folding words.
pub proof fn lemma_epoch_after_ge(words: Seq<u32>, epoch: int)
    ensures
        epoch_after(words, epoch) >= epoch,
    decreases words.len(),
{
    if words.len() > 0 {
        lemma_epoch_after_ge(words.skip(1), word_epoch_step(words[0], epoch));
    }
}

/// Every word of the sequence decodes to an overflow marker.
pub open spec fn all_overflow_markers(words: Seq<u32>) -> bool {
    forall|k: int| 0 <= k < words.len() ==> (#[trigger] decode_word(words[k])) is Overflow
}

/// Total number of rollovers coalesced into the sequence's overflow markers.
pub open spec fn sum_overflow_counts(words: Seq<u32>) -> int
    decreases words.len(),
{
    if words.len() == 0 {
        0
    } else {
        (match decode_word(words[0]) {
            T2Value::Overflow(c) => c as int,
            _ => 0,
        }) + sum_overflow_counts(words.skip(1))
    }
}

/// Number of words that decode to a photon or sync record.
pub open spec fn count_photon_words(words: Seq<u32>) -> int
    decreases words.len(),
{
    if words.len() == 0 {
        0
    } else {
        (if decode_word(words[0]) is Time || decode_word(words[0]) is Sync {
            1int
        } else {
            0int
        }) + count_photon_words(words.skip(1))
    }
}

/// A stream of overflow markers alone emits no event and advances the epoch
/// by `OVERFLOW_PERIOD` times the sum of the markers' rollover counts.
pub proof fn lemma_overflow_only_stream(words: Seq<u32>, epoch: int)
    requires
        all_overflow_markers(words),
    ensures
        events_after(words, epoch).len() == 0,
        epoch_after(words, epoch) == epoch + OVERFLOW_PERIOD as int * sum_overflow_counts(words),
    decreases words.len(),
{
    if words.len() > 0 {
        assert(decode_word(words[0]) is Overflow);
        assert(all_overflow_markers(words.skip(1))) by {
            assert(forall|k: int|
                0 <= k < words.skip(1).len() ==> words.skip(1)[k] == words[k + 1]);
        }
        lemma_overflow_only_stream(words.skip(1), word_epoch_step(words[0], epoch));
    }
}

/// Decoding preserves cardinality: the events emitted are exactly one per
/// photon or sync word, whatever the starting epoch.
pub proof fn lemma_decode_preserves_cardinality(words: Seq<u32>, epoch: int)
    ensures
        events_after(words, epoch).len() == count_photon_words(words),
    decreases words.len(),
{
    if words.len() > 0 {
        lemma_decode_preserves_cardinality(words.skip(1), word_epoch_step(words[0], epoch));
    }
}

/// The measurement struct which keeps track of timing overflows.
pub struct Measurement {
    pub time_overflow: u64,
}

impl Measurement {
    /// Define a new measurement, setting an overflow if needed.
    pub fn new(overflow: u64) -> (m: Measurement)
        ensures
            m.time_overflow == overflow,
    {
        Measurement { time_overflow: overflow }
    }

    /// Convert a set of fifo outputs in T2 mode into a vector of channels and
    /// times. Sets the sync channel to index zero and the rest higher.
    pub fn convert_values_T2(&mut self, input: &[u32]) -> (times: Vec<(u8, u64)>)
        requires
            epoch_after(input@, old(self).time_overflow as int) + TIME_MASK as int
                <= u64::MAX as int,
        ensures
            final(self).time_overflow as int
                == epoch_after(input@, old(self).time_overflow as int),
            widen_events(times@) == events_after(input@, old(self).time_overflow as int),
    {
        let ghost e0 = self.time_overflow as int;
        let ghost all = input@;
        let mut times: Vec<(u8, u64)> = Vec::new();
        let n: usize = input.len();
        let mut i: usize = 0;
        proof {
            assert(all.skip(0) =~= all);
            assert(widen_events(times@) + events_after(all, e0) =~= events_after(all, e0));
        }
        while i < n
            invariant
                i <= n,
                n == all.len(),
                all == input@,
                epoch_after(all, e0) == epoch_after(all.skip(i as int), self.time_overflow as int),
                events_after(all, e0) == widen_events(times@) + events_after(
                    all.skip(i as int),
                    self.time_overflow as int,
                ),
                epoch_after(all, e0) + TIME_MASK as int <= u64::MAX as int,
            decreases n - i,
        {
            let v: u32 = input[i];
            let ghost rest = all.skip(i as int);
            let ghost cur = self.time_overflow as int;
            proof {
                assert(rest[0] == all[i as int]);
                assert(rest.skip(1) =~= all.skip(i as int + 1));
                lemma_decode_field_bounds(v);
                lemma_epoch_after_ge(rest.skip(1), word_epoch_step(v, cur));
            }
            match convert_T2_value(&v) {
                T2Value::Time(c, t) => {
                    let ts: u64 = t as u64 + self.time_overflow;
                    times.push((c + 1, ts));
                    proof {
                        assert(widen_events(times@) =~= widen_events(times@.drop_last())
                            + word_events(v, cur));
                    }
                }
                T2Value::Sync(t) => {
                    let ts: u64 = t as u64 + self.time_overflow;
                    times.push((0, ts));
                    proof {
                        assert(widen_events(times@) =~= widen_events(times@.drop_last())
                            + word_events(v, cur));
                    }
                }
                T2Value::Overflow(c) => {
                    self.time_overflow = self.time_overflow + (c as u64) * OVERFLOW_PERIOD;
                }
                _ => {}
            }
            i = i + 1;
        }
        proof {
            assert(all.skip(n as int) =~= Seq::<u32>::empty());
            assert(events_after(all, e0) =~= widen_events(times@));
        }
        times
    }
}

/// Whether folding the words from `epoch` keeps every timestamp within
/// `u64`: the final epoch must leave room for a full local time field.
fn epoch_headroom(words: &[u32], epoch: u64) -> (r: bool)
    ensures
        r <==> epoch_after(words@, epoch as int) + TIME_MASK as int <= u64::MAX as int,
{
    let ghost all = words@;
    let bound: u64 = u64::MAX - (TIME_MASK as u64);
    if epoch > bound {
        proof {
            lemma_epoch_after_ge(all, epoch as int);
        }
        return false;
    }
    let mut cur: u64 = epoch;
    let n: usize = words.len();
    let mut i: usize = 0;
    proof {
        assert(all.skip(0) =~= all);
    }
    while i < n
        invariant
            i <= n,
            n == all.len(),
            all == words@,
            bound == u64::MAX - TIME_MASK as u64,
            cur <= bound,
            epoch_after(all, epoch as int) == epoch_after(all.skip(i as int), cur as int),
        decreases n - i,
    {
        let v: u32 = words[i];
        let ghost rest = all.skip(i as int);
        proof {
            assert(rest[0] == all[i as int]);
            assert(rest.skip(1) =~= all.skip(i as int + 1));
            lemma_decode_field_bounds(v);
        }
        match convert_T2_value(&v) {
            T2Value::Overflow(c) => {
                let add: u64 = (c as u64) * OVERFLOW_PERIOD;
                proof {
                    assert(add <= 0x00FF_FFFF * 33554432);
                    assert(word_epoch_step(v, cur as int) == cur as int + add as int);
                    assert(epoch_after(rest, cur as int) == epoch_after(
                        all.skip(i as int + 1),
                        cur as int + add as int,
                    ));
                }
                if cur > bound - add {
                    proof {
                        lemma_epoch_after_ge(all.skip(i as int + 1), cur as int + add as int);
                    }
                    return false;
                }
                cur = cur + add;
            }
            _ => {}
        }
        i = i + 1;
    }
    proof {
        assert(all.skip(n as int) =~= Seq::<u32>::empty());
    }
    true
}

impl Measurement {
    /// Convert a burst like `convert_values_T2`, first checking that the
    /// epoch arithmetic stays within `u64`: `None`, with the accumulator
    /// untouched, exactly when it would not.
    pub fn try_convert_values_T2(&mut self, input: &[u32]) -> (r: Option<Vec<(u8, u64)>>)
        ensures
            r is Some <==> epoch_after(input@, old(self).time_overflow as int) + TIME_MASK as int
                <= u64::MAX as int,
            r matches Some(times) ==> {
                &&& final(self).time_overflow as int == epoch_after(
                    input@,
                    old(self).time_overflow as int,
                )
                &&& widen_events(times@) == events_after(input@, old(self).time_overflow as int)
            },
            r is None ==> final(self).time_overflow == old(self).time_overflow,
    {
        if epoch_headroom(input, self.time_overflow) {
            Some(self.convert_values_T2(input))
        } else {
            None
        }
    }
}

/// Narrow capability interface onto the acquisition hardware: exactly the
/// calls the acquisition loop needs, so a test double can stand in for the
/// real device. Implementations outside this crate are not verified against
/// these contracts; they are obligations on the implementor.
pub trait Measureable {
    /// Start an acquisition run of the given length in milliseconds.
    fn start_measurement(&mut self, acquisition_time: i32) -> Result<(), HydraHarpError>;

    /// Read a burst of raw records into the front of `buffer`; `Ok(n)` says
    /// the first `n` slots now hold fresh records, with `n` never above the
    /// number requested.
    fn read_fifo(&mut self, buffer: &mut Vec<u32>, records_to_fetch: i32) -> (r: Result<
        i32,
        HydraHarpError,
    >)
        requires
            records_to_fetch >= 0,
            records_to_fetch as int <= old(buffer)@.len(),
        ensures
            final(buffer)@.len() == old(buffer)@.len(),
            r matches Ok(n) ==> 0 <= n <= records_to_fetch,
    ;

    /// Whether the acquisition run is still going or has ended.
    fn get_CTC_status(&self) -> Result<CTCStatus, HydraHarpError>;

    /// Device status flag bits.
    fn get_flags(&self) -> Result<i32, HydraHarpError>;
}

/// A trivial stand-in device: its run has already ended and its FIFO is empty.
pub struct TestMeasureable {
    time: u64,
}

impl TestMeasureable {
    pub fn new() -> TestMeasureable {
        TestMeasureable { time: 0 }
    }
}

impl Measureable for TestMeasureable {
    fn start_measurement(&mut self, acquisition_time: i32) -> Result<(), HydraHarpError> {
        Ok(())
    }

    fn read_fifo(&mut self, buffer: &mut Vec<u32>, records_to_fetch: i32) -> (r: Result<
        i32,
        HydraHarpError,
    >) {
        Ok(0)
    }

    fn get_CTC_status(&self) -> Result<CTCStatus, HydraHarpError> {
        Ok(CTCStatus::Ended)
    }

    fn get_flags(&self) -> Result<i32, HydraHarpError> {
        Ok(0)
    }
}

} // verus!
