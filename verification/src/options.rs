//! How a scan should be performed.

use crate::bands::Timestamp;
use crate::summary::Settings;
use vstd::prelude::*;

verus! {

/// Calls `num_cpus::get`, which reports how many processors this process may
/// use. That depends on the machine; what holds everywhere is that it is never
/// zero.
#[verifier::external_body]
fn available_processors() -> (r: usize)
    ensures
        r >= 1,
{
    num_cpus::get()
}

/// How many threads to use when `requested` were asked for and `available`
/// processors can run them.
pub fn capped_threads(requested: usize, available: usize) -> (r: usize)
    ensures
        requested <= available ==> r == requested,
        requested > available ==> r == available,
{
    if requested > available {
        available
    } else {
        requested
    }
}

/// How the walk should be performed.
#[derive(Debug)]
pub struct ScanOptions {
    pub max_depth: usize,
    pub threads: usize,
    /// Leave hidden files and directories out of the totals. Off by default,
    /// so dot-directories such as `.git` are counted.
    pub skip_hidden: bool,
    /// How many of the largest files to retain. Zero disables the report and
    /// avoids the per-file path allocation entirely.
    pub top: usize,
    /// How many small-file directories to report. Zero disables the report and
    /// avoids tracking per-directory totals at all.
    pub hotspots: usize,
    /// A file this size or smaller counts as small. Backup throughput is
    /// dominated by per-file overhead below roughly this point.
    pub small_at_or_below: u64,
}

impl ScanOptions {
    /// What the outcome of measuring depends on.
    pub open spec fn settings(&self, now: Timestamp) -> Settings {
        Settings {
            top: self.top as nat,
            track_directories: self.hotspots > 0,
            small_at_or_below: self.small_at_or_below,
            now,
        }
    }
}

impl Default for ScanOptions {
    fn default() -> (r: ScanOptions)
        ensures
            r.max_depth == usize::MAX,
            r.threads >= 1,
            !r.skip_hidden,
            r.top == 10,
            r.hotspots == 10,
            r.small_at_or_below == 64 * 1024,
    {
        ScanOptions {
            max_depth: usize::MAX,
            threads: available_processors(),
            skip_hidden: false,
            top: 10,
            hotspots: 10,
            small_at_or_below: 65_536,
        }
    }
}

} // verus!
