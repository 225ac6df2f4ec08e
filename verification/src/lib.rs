//! Fuzzy ranking of package names against abbreviated queries.
//!
//! Given a flat list of candidate names and a short query typed by a user,
//! the library keeps the names that contain the query's characters in order
//! (case-insensitively for ASCII letters) and ranks them by a penalty score:
//! the number of characters the query is missing to be a prefix-or-acronym
//! match of the name. Lower scores rank first; ties go to shorter names.

pub mod matching;
pub mod ranking;
pub mod scoring;
pub mod session;
pub mod text;
