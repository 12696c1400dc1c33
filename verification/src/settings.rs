//! The user's preferences: how often to refresh and which quota the menu bar
//! shows.

use vstd::prelude::*;

verus! {

/// The refresh interval used when none valid is stored.
pub const DEFAULT_REFRESH_INTERVAL: u64 = 60;

/// The refresh intervals the settings page offers, in seconds.
pub const VALID_REFRESH_INTERVALS: [u64; 4] = [30, 60, 300, 900];

/// Whether `seconds` is one of the offered refresh intervals.
pub open spec fn is_offered_interval(seconds: u64) -> bool {
    seconds == 30 || seconds == 60 || seconds == 300 || seconds == 900
}

/// The offered refresh intervals, as a sequence.
pub open spec fn offered_intervals() -> Seq<u64> {
    seq![30u64, 60u64, 300u64, 900u64]
}

/// The interval in effect for a stored one: itself when offered, else the default.
pub open spec fn loaded_interval(seconds: u64) -> u64 {
    if is_offered_interval(seconds) {
        seconds
    } else {
        DEFAULT_REFRESH_INTERVAL
    }
}

/// Stored preferences.
#[derive(Clone, Debug)]
pub struct Settings {
    pub refresh_interval_seconds: u64,
    /// The selection key of the bucket shown in the menu bar, or empty.
    pub menu_bar_quota: String,
}

impl Default for Settings {
    fn default() -> (s: Self)
        ensures
            s.refresh_interval_seconds == DEFAULT_REFRESH_INTERVAL,
            s.menu_bar_quota@.len() == 0,
    {
        Settings { refresh_interval_seconds: DEFAULT_REFRESH_INTERVAL, menu_bar_quota: String::new() }
    }
}

/// Whether `seconds` is one of `VALID_REFRESH_INTERVALS`.
pub fn is_valid_refresh_interval(seconds: u64) -> (r: bool)
    ensures
        r == is_offered_interval(seconds),
{
    let intervals = VALID_REFRESH_INTERVALS;
    assert(intervals@ == offered_intervals());
    let mut i: usize = 0;
    while i < 4
        invariant
            i <= 4,
            intervals@ == offered_intervals(),
            forall|j: int| 0 <= j < i ==> intervals@[j] != seconds,
        decreases 4 - i,
    {
        if intervals[i] == seconds {
            return true;
        }
        i += 1;
    }
    false
}

impl Settings {
    /// The settings in effect after reading the stored file: the defaults
    /// when nothing could be read or parsed, otherwise what was stored with an
    /// interval that is not offered replaced by the default one.
    pub fn load(parsed: Option<Settings>) -> (r: Settings)
        ensures
            match parsed {
                None => r.refresh_interval_seconds == DEFAULT_REFRESH_INTERVAL && r.menu_bar_quota@.len() == 0,
                Some(stored) => {
                    &&& r.menu_bar_quota@ == stored.menu_bar_quota@
                    &&& r.refresh_interval_seconds == loaded_interval(stored.refresh_interval_seconds)
                },
            },
            is_offered_interval(r.refresh_interval_seconds),
    {
        match parsed {
            None => Settings::default(),
            Some(mut settings) => {
                if !is_valid_refresh_interval(settings.refresh_interval_seconds) {
                    settings.refresh_interval_seconds = DEFAULT_REFRESH_INTERVAL;
                }
                settings
            },
        }
    }
}


/// Where `seconds` sits among the offered intervals; the one-minute entry
/// when it is not offered.
pub fn refresh_interval_position(seconds: u64) -> (r: usize)
    ensures
        r < 4,
        is_offered_interval(seconds) ==> offered_intervals()[r as int] == seconds,
        !is_offered_interval(seconds) ==> r == 1,
        VALID_REFRESH_INTERVALS@.contains(seconds) ==> VALID_REFRESH_INTERVALS@[r as int] == seconds,
{
    proof {
        offered_intervals_are_kept(seconds);
        assert(VALID_REFRESH_INTERVALS@ == offered_intervals());
    }
    if seconds == 30 {
        0
    } else if seconds == 60 {
        1
    } else if seconds == 300 {
        2
    } else if seconds == 900 {
        3
    } else {
        1
    }
}

/// The interval offered at a picker position; a negative position (nothing
/// selected) counts as the first.
pub fn refresh_interval_at(index: isize) -> (r: Option<u64>)
    ensures
        index < 4 ==> r == Some(offered_intervals()[if index < 0 { 0 } else { index as int }]),
        index >= 4 ==> r is None,
{
    let position: usize = if index < 0 { 0 } else { index as usize };
    if position < 4 {
        let intervals = VALID_REFRESH_INTERVALS;
        assert(intervals@ == offered_intervals());
        Some(intervals[position])
    } else {
        None
    }
}

/// The intervals the settings page offers are exactly the entries of
/// `VALID_REFRESH_INTERVALS`, and loading keeps each of them: an interval is
/// replaced by the default only when the page does not offer it.
pub proof fn offered_intervals_are_kept(seconds: u64)
    ensures
        is_offered_interval(seconds) <==> VALID_REFRESH_INTERVALS@.contains(seconds),
        forall|i: int| 0 <= i < 4 ==> is_offered_interval(#[trigger] VALID_REFRESH_INTERVALS@[i])
            && loaded_interval(VALID_REFRESH_INTERVALS@[i]) == VALID_REFRESH_INTERVALS@[i],
        VALID_REFRESH_INTERVALS@.contains(seconds) ==> loaded_interval(seconds) == seconds,
        !VALID_REFRESH_INTERVALS@.contains(seconds) ==> loaded_interval(seconds) == DEFAULT_REFRESH_INTERVAL,
{
    let v = VALID_REFRESH_INTERVALS@;
    assert(v == seq![30u64, 60u64, 300u64, 900u64]);
    if is_offered_interval(seconds) {
        if seconds == 30 {
            assert(v[0] == seconds);
        } else if seconds == 60 {
            assert(v[1] == seconds);
        } else if seconds == 300 {
            assert(v[2] == seconds);
        } else {
            assert(v[3] == seconds);
        }
    }
}

/// Loading a stored interval twice gives what loading it once gives.
pub proof fn loading_is_idempotent(seconds: u64)
    ensures
        loaded_interval(loaded_interval(seconds)) == loaded_interval(seconds),
        is_offered_interval(loaded_interval(seconds)),
{
}

} // verus!
