//! What compaction goes by, and what it reports.
use vstd::prelude::*;

verus! {

/// When tables would be compacted by level.
#[derive(Debug, PartialEq, Eq, Structural, Clone, Copy)]
pub struct CompactionConfig {
    pub level0_file_trigger: usize,
    pub max_levels: usize,
}

impl Default for CompactionConfig {
    fn default() -> (config: Self)
        ensures
            config.level0_file_trigger == 4,
            config.max_levels == 7,
    {
        CompactionConfig { level0_file_trigger: 4, max_levels: 7 }
    }
}

/// What a compaction did.
#[derive(Debug, PartialEq, Eq, Structural, Clone, Copy)]
pub struct CompactionReport {
    pub flushed_memtable: bool,
    pub input_sstables: usize,
    pub output_sstables: usize,
    pub input_entries: u64,
    pub output_entries: u64,
    pub dropped_entries: u64,
}

impl View for CompactionReport {
    type V = CompactionReport;

    open spec fn view(&self) -> CompactionReport {
        *self
    }
}

impl CompactionReport {
    /// The report of a compaction that had nothing to do.
    pub fn empty() -> (report: Self)
        ensures
            report == (CompactionReport {
                flushed_memtable: false,
                input_sstables: 0,
                output_sstables: 0,
                input_entries: 0,
                output_entries: 0,
                dropped_entries: 0,
            }),
    {
        CompactionReport {
            flushed_memtable: false,
            input_sstables: 0,
            output_sstables: 0,
            input_entries: 0,
            output_entries: 0,
            dropped_entries: 0,
        }
    }
}

} // verus!
