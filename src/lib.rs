//! Detection of long runs of spaces and tabs in text files: the per-line
//! matcher, the per-file scanner, the directory denylist, the merge of
//! per-file results and the planning of the grouped report.

mod pattern;
mod report;
mod scanner;
mod chars;
mod merge;
mod walker;

pub use pattern::{ws_pattern_source, PatternError, RunMatch, WsPattern};
pub use scanner::{make_preview, scan_lines, should_scan, Finding, PREVIEW_LIMIT};
pub use walker::{denylist, is_excluded_dir_name};
pub use merge::{merge_batches, ScanTotals};
pub use report::{distinct_paths, plan_report, Report, ReportLine};
