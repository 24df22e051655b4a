//! Filesystem scanning and per-extension aggregation.
//!
//! A walk hands over the directories it lists and the files it finds; what they
//! add up to, how the result is reported, and how two results compare is
//! decided here. Everything that touches the filesystem, the clock or the
//! terminal is left to the program around this library.

pub mod band_laws;
pub mod bands;
pub mod csv_file;
pub mod diff;
pub mod laws;
pub mod order;
pub mod options;
pub mod output;
pub mod output_laws;
pub mod partial;
pub mod path;
pub mod ranking;
pub mod report_laws;
pub mod reports;
pub mod results;
pub mod results_laws;
pub mod scan;
pub mod scan_laws;
pub mod sorted_map;
pub mod structure;
pub mod structure_laws;
pub mod summary;
pub mod survey;
pub mod table;
pub mod tally;
pub mod text;
pub mod totals;

pub use bands::{
    classify_age, classify_fan_out, classify_file_count, classify_size, AgeBucket, FanOut,
    FileCount, SizeBand, Timestamp,
};
pub use options::{capped_threads, ScanOptions};
pub use partial::{aggregate, combine, FileRecord, Measurement, NoProgress, Partial, Progress};
pub use path::{extension_of, FilePath, PathPart, NO_EXTENSION};
pub use scan::{
    check_root, scan, Hotspot, ReadFailure, RootStatus, Scan, ScanError, Walk, WalkEvent,
    MAX_REPORTED_ERRORS,
};
pub use sorted_map::SortedMap;
pub use structure::{
    Child, Structure, StructureCounters, LONG_PATH_LIMIT, MAX_TRACKED_DEPTH,
};
pub use summary::LargestFile;
pub use tally::{Bucket, DirectoryGroup, DirectoryStats, Ratio};
