//! Removal of duplicate files from one directory listing: a static split of
//! the listing across workers, deduplication by content digest inside each
//! worker's range, and a merge that removes the duplicates left between ranges.
pub mod fingerprint;
pub mod merge;
pub mod partition;
pub mod run;
pub mod worker;
