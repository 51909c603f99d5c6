//! Front-end helpers: writing values and event streams as JSON text.

pub mod json_stream;
pub mod json_stringify;
