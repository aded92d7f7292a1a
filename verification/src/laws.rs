//! Laws which the operations of the JSON reader obey together.

pub mod pieces;
pub mod strings;
pub mod structure;
pub mod numbers;
pub mod restriction;
pub mod sessions;
pub mod skipping;
pub mod paths;
pub mod acceptance;
pub mod documents;
pub mod gaps;
pub mod leniency;
pub mod top_level;
pub mod transfers;
