//! Finding the files of a set that hold the same bytes.
//!
//! The library sorts file paths into groups of equal contents. It never
//! touches a file itself: the caller hands it the functions that read, and
//! every contract is stated over what those functions returned.
//!
//! - [`copies`] sorts all paths into groups, those without a copy too, and
//!   hands back the failures of the reads beside the groups.
//! - [`duplicates`] keeps the groups of more than one file, and nothing else.
//! - [`fingerprint`] draws a cheap identity from a few bytes of a file, by
//!   which files are told apart before any of them is read in full.
//! - [`classes`], [`keys`] and [`reading`] hold what both ways of sorting
//!   share.
//! - [`partition`] and [`snapshot`] state what holds of the groups: the first
//!   whatever the reads returned, the second for files that do not change
//!   while they are read.
//! - [`paths`] and [`report`] serve a program that walks directories and
//!   shows the groups.

pub mod classes;
pub mod copies;
pub mod duplicates;
pub mod fingerprint;
pub mod keys;
pub mod partition;
pub mod paths;
pub mod reading;
pub mod report;
pub mod snapshot;
