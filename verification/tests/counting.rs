use rusty_counter::streaming::SyncCoincidenceCounter;
use rusty_counter::{
    coincidence_channels_to_index, index_to_coincidence_channels, singles_and_two_way_coincidences,
};

#[test]
fn pair_index_round_trip() {
    for i in 0..28usize {
        assert_eq!(
            coincidence_channels_to_index(index_to_coincidence_channels(i)),
            i
        );
    }
}

#[test]
fn pair_index_symmetric_and_in_range() {
    for a in 0u8..8 {
        for b in 0u8..8 {
            if a != b {
                let k = coincidence_channels_to_index((a, b));
                assert_eq!(k, coincidence_channels_to_index((b, a)));
                assert!(k < 28);
            }
        }
    }
}

#[test]
fn pair_index_sentinels() {
    assert_eq!(coincidence_channels_to_index((3, 3)), 28);
    assert_eq!(coincidence_channels_to_index((8, 0)), 28);
    assert_eq!(coincidence_channels_to_index((0, 99)), 28);
    assert_eq!(index_to_coincidence_channels(28), (255, 255));
    assert_eq!(index_to_coincidence_channels(99), (255, 255));
}

#[test]
fn pair_index_known_values() {
    assert_eq!(coincidence_channels_to_index((0, 1)), 0);
    assert_eq!(coincidence_channels_to_index((1, 2)), 7);
    assert_eq!(coincidence_channels_to_index((6, 7)), 27);
}

#[test]
fn batch_end_to_end() {
    let events = [(0u8, 100u64), (1, 150), (2, 5000)];
    let (singles, coincidences) = singles_and_two_way_coincidences(100, &events);
    assert_eq!(singles, [1, 1, 1, 0, 0, 0, 0, 0]);
    assert_eq!(coincidences[coincidence_channels_to_index((0, 1))], 1);
    assert_eq!(coincidences[coincidence_channels_to_index((0, 2))], 0);
    assert_eq!(coincidences.iter().sum::<u64>(), 1);
}

#[test]
fn zero_window_counts_nothing() {
    let events = [(0u8, 100u64), (1, 100), (2, 100), (3, 5000)];
    let (singles, coincidences) = singles_and_two_way_coincidences(0, &events);
    assert_eq!(singles, [1, 1, 1, 1, 0, 0, 0, 0]);
    assert_eq!(coincidences, [0u64; 29]);
}

#[test]
fn batch_window_is_strict() {
    let events = [(0u8, 0u64), (1, 50)];
    let (_, coincidences) = singles_and_two_way_coincidences(50, &events);
    assert_eq!(coincidences[0], 0);
    let (_, coincidences) = singles_and_two_way_coincidences(51, &events);
    assert_eq!(coincidences[0], 1);
}

#[test]
fn batch_ignores_same_channel_pairs() {
    let events = [(1u8, 10u64), (1, 15)];
    let (singles, coincidences) = singles_and_two_way_coincidences(100, &events);
    assert_eq!(singles[1], 2);
    assert_eq!(coincidences, [0u64; 29]);
}

#[test]
fn batch_empty_input() {
    let (singles, coincidences) = singles_and_two_way_coincidences(100, &[]);
    assert_eq!(singles, [0u64; 8]);
    assert_eq!(coincidences, [0u64; 29]);
}

#[test]
fn streaming_engine_basic() {
    let mut engine = SyncCoincidenceCounter::new(100, 0);
    assert!(engine.process_events(&[(0, 100), (1, 150), (2, 5000)]));
    assert_eq!(engine.singles, [0, 1, 1, 0, 0, 0, 0, 0]);
    assert_eq!(engine.coincidences[coincidence_channels_to_index((0, 1))], 1);
    assert_eq!(engine.coincidences[coincidence_channels_to_index((0, 2))], 0);
    assert_eq!(engine.pending_syncs.len(), 0);
}

#[test]
fn streaming_window_is_inclusive() {
    let mut engine = SyncCoincidenceCounter::new(50, 0);
    assert!(engine.process_events(&[(0, 0), (1, 50)]));
    assert_eq!(engine.coincidences[0], 1);
}

#[test]
fn streaming_rejects_out_of_range_channel() {
    let mut engine = SyncCoincidenceCounter::new(50, 0);
    assert!(!engine.process_events(&[(9, 5)]));
}

#[test]
fn streaming_drops_stale_syncs() {
    let mut engine = SyncCoincidenceCounter::new(50, 0);
    assert!(engine.process_events(&[(0, 0), (0, 10), (1, 100)]));
    assert_eq!(engine.coincidences[0], 0);
    assert_eq!(engine.pending_syncs.len(), 0);
    assert!(engine.process_events(&[(0, 120), (1, 130)]));
    assert_eq!(engine.coincidences[0], 1);
}

#[test]
fn streaming_matches_batch_on_sync_pairs() {
    let events = [
        (0u8, 0u64),
        (1, 10),
        (2, 25),
        (0, 1000),
        (1, 1020),
        (1, 1060),
    ];
    let (_, batch) = singles_and_two_way_coincidences(50, &events);
    let mut engine = SyncCoincidenceCounter::new(50, 0);
    assert!(engine.process_events(&events));
    let k01 = coincidence_channels_to_index((0, 1));
    let k02 = coincidence_channels_to_index((0, 2));
    let k12 = coincidence_channels_to_index((1, 2));
    assert_eq!(engine.coincidences[k01], batch[k01]);
    assert_eq!(engine.coincidences[k02], batch[k02]);
    assert_eq!(engine.coincidences[k01], 2);
    assert_eq!(engine.coincidences[k02], 1);
    // the streaming mode deliberately sees no pair of two non-sync channels
    assert_eq!(batch[k12], 1);
    assert_eq!(engine.coincidences[k12], 0);
}
