//! Core processing for a T2-mode time-correlated single-photon counting
//! device: decoding raw 32-bit event words, accumulating rollover epochs into
//! monotonic timestamps, and tallying singles and pairwise coincidences, in
//! batch over a sorted event list or streaming against a sync channel.

pub mod acquisition;
pub mod coincidence;
pub mod equivalence;
pub mod measurement;
pub mod pairs;
pub mod streaming;
pub mod types;

pub use acquisition::{
    run_measurement_and_wait_till_finished, run_streaming_acquisition, sort_events_by_time,
    FLAG_FIFOFULL, READ_BURST,
};
pub use coincidence::singles_and_two_way_coincidences;
pub use measurement::{convert_T2_value, Measureable, Measurement, T2Value, TestMeasureable};
pub use pairs::{coincidence_channels_to_index, index_to_coincidence_channels};
pub use streaming::SyncCoincidenceCounter;
pub use types::{CTCStatus, HydraHarpError};
