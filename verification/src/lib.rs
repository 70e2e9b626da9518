//! Line-, cell- and tree-level comparison of two texts, two workbooks or two
//! folder/archive trees, with windowed views over the results.

pub mod align;
pub mod chars;
pub mod edit;
pub mod text;
pub mod window;
pub mod names;
pub mod folder;
pub mod excel;
pub mod scan;
pub mod commands;
