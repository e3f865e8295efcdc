//! A verified core for building ranked, filtered Arch Linux mirror lists.
//!
//! The library keeps a directory of mirror endpoints ([`MirrorList`]), and
//! offers a stable multi-key ranking ([`MirrorList::sort`]), criteria-based
//! filtering ([`MirrorList::filter`]), a probe coordinator that merges
//! bandwidth measurements back into the directory without loss or
//! duplication, and renderers for the mirror-list file and the country
//! report.

pub mod clock;
pub mod filter;
pub mod mirror;
pub mod order;
pub mod probe;
pub mod ranker;
pub mod report;
pub mod sorting;

pub use mirror::Bandwidth;
pub use mirror::Mirror;
pub use mirror::MirrorList;
pub use mirror::Protocol;
pub use mirror::SortKey;
pub use probe::ProbeCoordinator;
pub use report::get_country_line;
