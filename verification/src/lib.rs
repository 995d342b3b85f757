//! A verified core for a `sort | uniq -c`-style line tally: counting repeated
//! records read from input lines, ranking them by descending count, and
//! rendering the result as an aligned table or a delimited text stream.

pub mod decimal;
pub mod rank;
pub mod render;
pub mod tally;
pub mod text;
