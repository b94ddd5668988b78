//! A disk-usage triage library: builds an in-memory tree of file and
//! directory nodes, computes each directory's total size as the sum of the
//! file sizes beneath it, finds the largest single file anywhere in the
//! tree, and selects the nodes whose size meets a caller-chosen cutoff.
pub mod builder;
pub mod format;
pub mod node;
pub mod report;
