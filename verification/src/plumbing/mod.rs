//! Turning vendor listings into devices and rules.

pub mod iphone;
pub mod knox;
pub mod lineage;
