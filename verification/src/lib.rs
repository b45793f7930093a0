//! Verified core of the ECS benchmark report: ordering of library columns,
//! selection of the fastest implementation, column layout of the terminal
//! table, the Markdown report text and the UTC timestamp that heads it.

pub mod markdown;
pub mod report;
pub mod results;
pub mod terminal;
pub mod text;
pub mod timestamp;
