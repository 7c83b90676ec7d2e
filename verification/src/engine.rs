//! The file-backed engine: a whitespace-split command reader, a token
//! reader with compound filters, and the table services that both drive.
pub mod syntax;
pub mod statement;
pub mod compiler;
pub mod tokens;
pub mod service;
