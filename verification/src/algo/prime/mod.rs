//! Building blocks of the pool-disjoint split router.
pub mod hub;
pub mod find_path;
pub mod path;
pub mod report;
