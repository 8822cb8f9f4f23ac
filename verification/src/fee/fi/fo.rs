//! A level of the hierarchy that sends nothing itself.

pub mod fum;
