//! A small command-line flag parser: flags are registered with a description
//! and a callback, and an argument list is dispatched pair by pair.

pub mod optparse;

pub use optparse::{Func, ParseError, Parser};
