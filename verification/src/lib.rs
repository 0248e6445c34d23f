pub mod text;
pub mod engine;
pub mod parser;
pub mod aligner;
pub mod config;
