//! Builds a single prompt document that describes a project's source tree:
//! a filtered tree rendering, the de-commented contents of selected files,
//! an introduction and a goal.

pub mod text;
pub mod compact;
pub mod strip;
pub mod config;
pub mod walk;
pub mod assemble;
