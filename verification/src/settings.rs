//! The options of a store and its running counts.

use vstd::prelude::*;
use vstd::string::StringExecFns;
use crate::util::Size;

verus! {

/// The limits that shape what a store writes.
pub struct Limits {
    /// A segment is rolled over before an append would make it longer.
    pub file_size: u64,
    /// The longest key that is taken, where there is a cap.
    pub max_key: Option<u64>,
    /// The longest value that is taken, where there is a cap.
    pub max_value: Option<u64>,
}

/// The options of a store.
#[derive(Debug)]
pub struct Options {
    /// The directory that holds the files of the store.
    pub base_dir: String,
    /// How many segment readers may be kept at hand. Advisory.
    pub cache_size: u64,
    /// The most bytes a segment may hold before a new one is begun.
    pub file_size_limit: u64,
    /// The cap on the length of a key, if there is one.
    pub max_key_size: Option<u64>,
    /// The cap on the length of a value, if there is one.
    pub max_value_size: Option<u64>,
    /// The share of dead bytes, in percent, beyond which a merge is due.
    /// Reserved.
    pub bytes_deleted_percent: u64,
    /// The share of dead entries, in percent, beyond which a merge is due.
    /// Reserved.
    pub entries_deleted_percent: u64,
}

impl Options {
    /// The limits among the options.
    pub open spec fn limits(&self) -> Limits {
        Limits {
            file_size: self.file_size_limit,
            max_key: self.max_key_size,
            max_value: self.max_value_size,
        }
    }

    /// The default options for a store under `path`: segments of two
    /// gibibytes, eight cached readers, no caps, merge thresholds at one
    /// half.
    pub fn new(path: &str) -> (opts: Self)
        ensures
            opts.base_dir@ == path@,
            opts.cache_size == 8,
            opts.file_size_limit == 0x8000_0000,
            opts.max_key_size is None,
            opts.max_value_size is None,
            opts.bytes_deleted_percent == 50,
            opts.entries_deleted_percent == 50,
    {
        Self {
            base_dir: String::from_str(path),
            cache_size: 8,
            file_size_limit: Size::GB(2),
            max_key_size: None,
            max_value_size: None,
            bytes_deleted_percent: 50,
            entries_deleted_percent: 50,
        }
    }
}

/// The running counts of a store.
#[derive(Debug)]
pub struct Metrics {
    /// The bytes of the records that were superseded or deleted since the
    /// store was opened or last merged.
    pub num_bytes_deleted: u64,
    /// The number of those records.
    pub num_entries_deleted: u64,
    /// The dead bytes beyond which a merge is due. Reserved.
    pub bytes_deleted_limit: u64,
    /// The share of dead entries, in percent, beyond which a merge is due.
    /// Reserved.
    pub entries_deleted_percent: u64,
}

impl Metrics {
    /// Counts at zero, with the default thresholds.
    pub fn new() -> (metrics: Self)
        ensures
            metrics.num_bytes_deleted == 0,
            metrics.num_entries_deleted == 0,
            metrics.bytes_deleted_limit == 81920,
            metrics.entries_deleted_percent == 50,
    {
        Self {
            num_entries_deleted: 0,
            num_bytes_deleted: 0,
            bytes_deleted_limit: 81920,
            entries_deleted_percent: 50,
        }
    }
}

} // verus!
