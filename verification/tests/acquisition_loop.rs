use rusty_counter::measurement::{Measureable, OVERFLOW_PERIOD};
use rusty_counter::{
    coincidence_channels_to_index, run_measurement_and_wait_till_finished,
    run_streaming_acquisition, sort_events_by_time, CTCStatus, HydraHarpError, TestMeasureable,
};

const RAW_SPECIAL: u32 = 0x8000_0000;
const RAW_MARKER_BITS: u32 = 0x7E00_0000;

fn raw_channel(channel: u32, time: u32) -> u32 {
    (channel << 25) | time
}

fn raw_overflow(count: u32) -> u32 {
    RAW_SPECIAL | RAW_MARKER_BITS | count
}

fn raw_sync(time: u32) -> u32 {
    RAW_SPECIAL | time
}

/// A device double that serves a fixed script of FIFO bursts and then
/// reports the run as ended.
struct ScriptedDevice {
    bursts: Vec<Vec<u32>>,
    next: usize,
    flags: i32,
}

impl ScriptedDevice {
    fn new(bursts: Vec<Vec<u32>>) -> ScriptedDevice {
        ScriptedDevice {
            bursts,
            next: 0,
            flags: 0,
        }
    }
}

impl Measureable for ScriptedDevice {
    fn start_measurement(&mut self, _acquisition_time: i32) -> Result<(), HydraHarpError> {
        Ok(())
    }

    fn read_fifo(
        &mut self,
        buffer: &mut Vec<u32>,
        records_to_fetch: i32,
    ) -> Result<i32, HydraHarpError> {
        if self.next >= self.bursts.len() {
            return Ok(0);
        }
        let burst = &self.bursts[self.next];
        assert!(burst.len() <= records_to_fetch as usize);
        for (slot, word) in burst.iter().enumerate() {
            buffer[slot] = *word;
        }
        self.next += 1;
        Ok(burst.len() as i32)
    }

    fn get_CTC_status(&self) -> Result<CTCStatus, HydraHarpError> {
        if self.next >= self.bursts.len() {
            Ok(CTCStatus::Ended)
        } else {
            Ok(CTCStatus::Running)
        }
    }

    fn get_flags(&self) -> Result<i32, HydraHarpError> {
        Ok(self.flags)
    }
}

#[test]
fn sort_events_sorts_by_time() {
    let mut events = vec![(1u8, 30u64), (2, 10), (3, 20)];
    sort_events_by_time(&mut events);
    assert_eq!(events, vec![(2u8, 10u64), (3, 20), (1, 30)]);
}

#[test]
fn sort_events_keeps_duplicates() {
    let mut events = vec![(1u8, 7u64), (2, 7), (0, 3)];
    sort_events_by_time(&mut events);
    assert_eq!(events.len(), 3);
    assert_eq!(events[0], (0u8, 3u64));
    assert_eq!(events[1].1, 7);
    assert_eq!(events[2].1, 7);
}

#[test]
fn idle_device_yields_empty_run() {
    let mut device = TestMeasureable::new();
    assert_eq!(
        run_measurement_and_wait_till_finished(100, &mut device),
        Ok(vec![])
    );
}

#[test]
fn idle_device_yields_zero_counts() {
    let mut device = TestMeasureable::new();
    let (singles, coincidences) = run_streaming_acquisition(&mut device, 1000, 100, 0).unwrap();
    assert_eq!(singles, [0u64; 8]);
    assert_eq!(coincidences, [0u64; 29]);
}

#[test]
fn collects_all_words_across_bursts() {
    let mut device = ScriptedDevice::new(vec![vec![1, 2, 3], vec![4, 5]]);
    assert_eq!(
        run_measurement_and_wait_till_finished(100, &mut device),
        Ok(vec![1, 2, 3, 4, 5])
    );
}

#[test]
fn fifo_overflow_aborts_run() {
    let mut device = ScriptedDevice::new(vec![vec![1, 2, 3]]);
    device.flags = 2;
    assert_eq!(
        run_measurement_and_wait_till_finished(100, &mut device),
        Err(HydraHarpError::UnknownError)
    );
    let mut device = ScriptedDevice::new(vec![vec![raw_sync(5)]]);
    device.flags = 2;
    assert_eq!(
        run_streaming_acquisition(&mut device, 100, 50, 0),
        Err(HydraHarpError::UnknownError)
    );
}

#[test]
fn streaming_acquisition_end_to_end() {
    let burst = vec![raw_sync(100), raw_channel(0, 150), raw_channel(1, 5000)];
    let mut device = ScriptedDevice::new(vec![burst]);
    let (singles, coincidences) = run_streaming_acquisition(&mut device, 10, 100, 0).unwrap();
    assert_eq!(singles, [0, 1, 1, 0, 0, 0, 0, 0]);
    assert_eq!(coincidences[coincidence_channels_to_index((0, 1))], 1);
    assert_eq!(coincidences[coincidence_channels_to_index((0, 2))], 0);
}

#[test]
fn streaming_acquisition_applies_epoch_across_bursts() {
    // the sync arrives before the rollover, the channel event after: their
    // global gap is a whole OVERFLOW_PERIOD and no coincidence may count
    let bursts = vec![vec![raw_sync(5), raw_overflow(1)], vec![raw_channel(0, 10)]];
    let mut device = ScriptedDevice::new(bursts);
    let (singles, coincidences) = run_streaming_acquisition(&mut device, 10, 50, 0).unwrap();
    assert_eq!(singles, [0, 1, 0, 0, 0, 0, 0, 0]);
    assert_eq!(coincidences, [0u64; 29]);
    assert!(OVERFLOW_PERIOD > 50);
}

#[test]
fn streaming_acquisition_pairs_across_bursts() {
    let bursts = vec![vec![raw_sync(100)], vec![raw_channel(0, 120)]];
    let mut device = ScriptedDevice::new(bursts);
    let (singles, coincidences) = run_streaming_acquisition(&mut device, 10, 50, 0).unwrap();
    assert_eq!(singles, [0, 1, 0, 0, 0, 0, 0, 0]);
    assert_eq!(coincidences[coincidence_channels_to_index((0, 1))], 1);
}
