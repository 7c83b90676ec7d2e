//! The line-command engine: a whitespace-split reader and services that
//! answer with the text they report.
pub mod compiler;
pub mod service;
