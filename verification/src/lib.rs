//! Job logging, log paging and helper routines of the nomos job runner.
pub mod log;
pub mod text;
pub mod utils;
pub mod handlers;
pub mod script;
