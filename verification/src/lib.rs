//! Category statistics over a product co-purchase graph.
//!
//! The input is a text file of product records. [`record`] turns its lines
//! into records; [`data_processing`] folds the records into an adjacency
//! graph and a table of node information, and reconciles the two;
//! [`graph_analysis`] computes, for each category, tallies whose quotients
//! are the average degree, the likelihood of a purchase within the category,
//! and the average number of co-purchases from one category into another.
//!
//! Reading the file and dividing the tallies are left to the caller: the
//! library takes lines and returns integers.

pub mod category;
pub mod data_processing;
pub mod graph_analysis;
pub mod record;
pub mod table;
pub mod text;
