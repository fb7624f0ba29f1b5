//! A word-search ("Boggle") solver: a letter grid, a dictionary indexed by
//! words and prefixes, and the search that traces dictionary words through
//! adjacent cells of the grid.

pub mod dict;
pub mod laws;
pub mod puzzle;
pub mod search;
pub mod text;
pub mod trace;
