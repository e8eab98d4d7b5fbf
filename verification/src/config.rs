//! The watering configuration.

use vstd::prelude::*;

verus! {

/// Seconds between two scheduled waterings by default: two days.
pub const DEFAULT_INTERVAL_SECS: u64 = 172800;

/// Seconds the pump runs per watering by default.
pub const DEFAULT_DURATION_SECS: u64 = 5;

/// How often and how long the plants are watered.
pub struct Config {
    pub watering_interval_secs: u64,
    pub pump_duration_secs: u64,
}

impl Config {
    /// The configuration used until one is stored: every 48 hours, for 5 seconds.
    pub fn default() -> (c: Self)
        ensures
            c.watering_interval_secs == 48 * 60 * 60,
            c.pump_duration_secs == 5,
    {
        Config { watering_interval_secs: DEFAULT_INTERVAL_SECS, pump_duration_secs: DEFAULT_DURATION_SECS }
    }

    /// This configuration with the values read back from storage put in place; a value that
    /// could not be read leaves the current one.
    pub fn with_stored(self, interval: Option<u64>, duration: Option<u64>) -> (c: Self)
        ensures
            c.watering_interval_secs == match interval {
                Some(v) => v,
                None => self.watering_interval_secs,
            },
            c.pump_duration_secs == match duration {
                Some(v) => v,
                None => self.pump_duration_secs,
            },
    {
        let mut c = self;
        if let Some(v) = interval {
            c.watering_interval_secs = v;
        }
        if let Some(v) = duration {
            c.pump_duration_secs = v;
        }
        c
    }
}

} // verus!
