//! The records that the project manager keeps: what is known of one project,
//! and the index of all projects.

pub mod project_config;
pub mod project_index;
