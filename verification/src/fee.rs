//! A sender with another one deep below it.

pub mod fi;
