//! Fuzzy resolution of project names for a command-line project manager.
//!
//! A query typed by the user is matched against the known project names,
//! first literally and then by a similarity score built on the Levenshtein
//! distance. Where one name stands out it is the answer; where several score
//! close to one another the user is asked to choose.
//!
//! The modules, from the leaves to the resolver:
//!
//! - [`edit_distance`]: the Levenshtein distance on bytes, and its laws as a
//!   metric;
//! - [`text`]: strings as sequences of characters, and white space;
//! - [`utils`]: delimiter stripping, string comparison, and the ordering of
//!   score buckets;
//! - [`fuzzing_matching`]: the similarity score and the grouping of
//!   candidates by rounded score;
//! - [`resolver`]: the gap filter and the decision between an answer and a
//!   question to the user;
//! - [`selection`]: the text of that question, and the reading of the answer;
//! - [`models`]: the project records whose names are resolved;
//! - [`commands`]: the splitting of a stored command line into words.
//!
//! Scores are exact fractions, not floating-point numbers: a score that lies
//! exactly between two percentages is rounded up, on every machine.

pub mod commands;
pub mod edit_distance;
pub mod fuzzing_matching;
pub mod models;
pub mod resolver;
pub mod selection;
pub mod text;
pub mod utils;
