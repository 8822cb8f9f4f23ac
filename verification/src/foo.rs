//! Two senders side by side under one parent.

pub mod bar;
pub mod baz;
