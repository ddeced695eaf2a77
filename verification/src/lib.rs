//! Section-scoped search over a markdown corpus: the parsing, filtering and
//! bookkeeping that decide what an index holds and what a query returns.

pub mod text;
pub mod fm;
pub mod lines;
pub mod sections;
pub mod budget;
pub mod order;
pub mod filters;
pub mod store;
pub mod moves;
pub mod num;
pub mod config;
pub mod paths;
pub mod unit;
pub mod plan;
pub mod matrix;
pub mod extract;
pub mod probe;
pub mod report;
