//! Mass re-naming of image files into the form `name-[WxH].ext`.
//!
//! The library holds the decisions: how a file stem is cleaned of
//! resolution strings and numeric noise, which files are candidates,
//! how candidates sharing a cleaned name are grouped and ordered, and
//! which rename or copy each one receives.

pub mod text;
pub mod noise;
pub mod clean;
pub mod paths;
pub mod model;
pub mod plan;

pub mod laws;
