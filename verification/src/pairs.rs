//! Canonical triangular numbering of unordered channel pairs.
//!
//! Channels are numbered `0..NUM_CHANNELS`; every unordered pair `{a, b}` of
//! distinct channels gets the index counting the pairs `(x, y)` with `x < y`
//! that lexicographically precede it. Invalid inputs (equal channels or an id
//! out of range) map to the sentinel index `PAIR_SENTINEL`.

use vstd::prelude::*;

verus! {

/// Number of counting channels: the sync channel plus seven inputs.
pub const NUM_CHANNELS: u8 = 8;

/// Number of unordered pairs of distinct channels.
pub const NUM_PAIRS: usize = 28;

/// Index returned for an invalid pair (equal channels or an id out of range).
pub const PAIR_SENTINEL: usize = 28;

/// Triangular index of the unordered pair `{a, b}`: the number of pairs
/// `(x, y)` with `x < y < NUM_CHANNELS` lexicographically before it, or
/// `PAIR_SENTINEL` when the pair is invalid.
pub open spec fn pair_index_spec(a: u8, b: u8) -> int {
    if a == b || a >= NUM_CHANNELS || b >= NUM_CHANNELS {
        PAIR_SENTINEL as int
    } else {
        let lo = if a < b { a as int } else { b as int };
        let hi = if a < b { b as int } else { a as int };
        lo * (15 - lo) / 2 + hi - lo - 1
    }
}

/// The pair index is symmetric in its two arguments.
pub proof fn lemma_pair_index_symmetric(a: u8, b: u8)
    ensures
        pair_index_spec(a, b) == pair_index_spec(b, a),
{
}

/// Every valid pair of distinct channels lands strictly below the sentinel.
pub proof fn lemma_pair_index_in_range(a: u8, b: u8)
    requires
        a < NUM_CHANNELS,
        b < NUM_CHANNELS,
        a != b,
    ensures
        0 <= pair_index_spec(a, b) < NUM_PAIRS,
{
    let lo = if a < b { a as int } else { b as int };
    let hi = if a < b { b as int } else { a as int };
    assert(0 <= lo < hi < 8);
    assert(lo * (15 - lo) / 2 + hi - lo - 1 < 28) by (nonlinear_arith)
        requires
            0 <= lo < hi < 8,
    ;
}

/// Convert a coincidence channel pair `(c1, c2)` into its canonical index.
pub fn coincidence_channels_to_index(channels: (u8, u8)) -> (index: usize)
    ensures
        index as int == pair_index_spec(channels.0, channels.1),
{
    match channels {
        (0, 1) | (1, 0) => 0,
        (0, 2) | (2, 0) => 1,
        (0, 3) | (3, 0) => 2,
        (0, 4) | (4, 0) => 3,
        (0, 5) | (5, 0) => 4,
        (0, 6) | (6, 0) => 5,
        (0, 7) | (7, 0) => 6,
        (1, 2) | (2, 1) => 7,
        (1, 3) | (3, 1) => 8,
        (1, 4) | (4, 1) => 9,
        (1, 5) | (5, 1) => 10,
        (1, 6) | (6, 1) => 11,
        (1, 7) | (7, 1) => 12,
        (2, 3) | (3, 2) => 13,
        (2, 4) | (4, 2) => 14,
        (2, 5) | (5, 2) => 15,
        (2, 6) | (6, 2) => 16,
        (2, 7) | (7, 2) => 17,
        (3, 4) | (4, 3) => 18,
        (3, 5) | (5, 3) => 19,
        (3, 6) | (6, 3) => 20,
        (3, 7) | (7, 3) => 21,
        (4, 5) | (5, 4) => 22,
        (4, 6) | (6, 4) => 23,
        (4, 7) | (7, 4) => 24,
        (5, 6) | (6, 5) => 25,
        (5, 7) | (7, 5) => 26,
        (6, 7) | (7, 6) => 27,
        _ => PAIR_SENTINEL,
    }
}

/// Invert the canonical pair index: for a valid index the returned channels
/// are the unique pair `a < b` whose index it is, so that
/// `coincidence_channels_to_index(index_to_coincidence_channels(i)) == i`;
/// out-of-range indices map to the sentinel pair `(255, 255)`.
pub fn index_to_coincidence_channels(index: usize) -> (channels: (u8, u8))
    ensures
        index < NUM_PAIRS ==> {
            &&& channels.0 < channels.1
            &&& channels.1 < NUM_CHANNELS
            &&& pair_index_spec(channels.0, channels.1) == index as int
        },
        index >= NUM_PAIRS ==> channels == (255u8, 255u8),
{
    match index {
        0 => (0, 1),
        1 => (0, 2),
        2 => (0, 3),
        3 => (0, 4),
        4 => (0, 5),
        5 => (0, 6),
        6 => (0, 7),
        7 => (1, 2),
        8 => (1, 3),
        9 => (1, 4),
        10 => (1, 5),
        11 => (1, 6),
        12 => (1, 7),
        13 => (2, 3),
        14 => (2, 4),
        15 => (2, 5),
        16 => (2, 6),
        17 => (2, 7),
        18 => (3, 4),
        19 => (3, 5),
        20 => (3, 6),
        21 => (3, 7),
        22 => (4, 5),
        23 => (4, 6),
        24 => (4, 7),
        25 => (5, 6),
        26 => (5, 7),
        27 => (6, 7),
        _ => (255, 255),
    }
}

} // verus!
