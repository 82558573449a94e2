//! Options of the command line.

use vstd::prelude::*;

verus! {

/// Seconds in a day.
pub const SECONDS_PER_DAY: u64 = 86400;

/// What the user asked for on the command line.
#[derive(Debug)]
pub struct Args {
    /// Address of the manga to download.
    pub link: String,
    /// Directory the documents are written to.
    pub output_dir: String,
    /// Largest number of concurrent downloads.
    pub concurrency: usize,
    /// Download every chapter without asking.
    pub all: bool,
    /// Keep downloaded images in the cache.
    pub cache: bool,
    /// Largest age of cached content, in days.
    pub cache_max_age: u64,
    /// Cache directory, if not the default one.
    pub cache_dir: Option<String>,
    /// Check the integrity of the cache.
    pub validate_cache: bool,
    /// Empty the cache.
    pub clear_cache: bool,
    /// How much to log: 0 for warnings, more for more detail.
    pub verbose: u8,
}

impl Args {
    /// The maximum age of cached content in seconds, at most `u64::MAX`.
    pub fn cache_max_age_seconds(&self) -> (r: u64)
        ensures
            r == if self.cache_max_age * SECONDS_PER_DAY <= u64::MAX {
                self.cache_max_age * SECONDS_PER_DAY
            } else {
                u64::MAX as int
            },
    {
        if self.cache_max_age > u64::MAX / SECONDS_PER_DAY {
            assert(self.cache_max_age * SECONDS_PER_DAY > u64::MAX) by (nonlinear_arith)
                requires
                    self.cache_max_age > u64::MAX / SECONDS_PER_DAY,
                    SECONDS_PER_DAY == 86400,
            ;
            u64::MAX
        } else {
            assert(self.cache_max_age * SECONDS_PER_DAY <= u64::MAX) by (nonlinear_arith)
                requires
                    self.cache_max_age <= u64::MAX / SECONDS_PER_DAY,
                    SECONDS_PER_DAY == 86400,
            ;
            self.cache_max_age * SECONDS_PER_DAY
        }
    }
}

} // verus!
