//! A catalogue of phone security features: device and vendor listings from
//! several sources, rules that classify each device per security category,
//! and the data that the static site is built from.

pub mod args;
pub mod hardware;
pub mod plumbing;
pub mod rules;
pub mod site;
pub mod text;
