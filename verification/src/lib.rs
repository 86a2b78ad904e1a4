//! Binning of columns: by intervals, by quantiles and by rank.
//!
//! A column is assigned to bins that are delimited by breakpoints, by values at positions in
//! sorted order, or by the positions themselves. The bins come out as indices or as an enum over
//! labels, on their own or together with the bounds of every bin.

pub mod binning;
pub mod casting;
pub mod dtype;
pub mod error;
pub mod foundations;
pub mod intervals;
pub mod laws;
pub mod meaning;
pub mod method;
pub mod ordered_bits;
pub mod output;
pub mod positions;
pub mod search;
pub mod series;
pub mod sorting;
pub mod value;
