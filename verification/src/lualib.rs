//! The functions that the library provides to programs.
pub mod auxlib;
pub mod baselib;
