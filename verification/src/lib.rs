pub mod config;
pub mod error;
pub mod text;
pub mod types;
pub mod table;
pub mod log;
pub mod data;
pub mod database;
pub mod crypto;
pub mod syntax;
pub mod parser;
pub mod storage;
pub mod executor;
pub mod engine;
pub mod basic;
pub mod export;
pub mod import;
pub mod manager;
