//! Streaming JSON reader.

pub mod ascii;
pub mod buffer;
pub mod chars;
pub mod chunking;
pub mod chunks;
pub mod describe;
pub mod error;
pub mod frame;
pub mod laws;
pub mod lookahead;
pub mod model;
pub mod number;
pub mod operations;
pub mod position;
pub mod reader;
pub mod scan;
pub mod scanner;
pub mod settings;
pub mod snapshot;
pub mod token;
pub mod traversal;
pub mod usage;
pub mod utf8;
pub mod validity;
