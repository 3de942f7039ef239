//! Reading and writing Tappio bookkeeping files.
pub mod text;
pub mod sexpr;
pub mod reader;
pub mod chart;
pub mod ledger;
pub mod round_trip;
