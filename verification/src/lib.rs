//! Grouping of path lines by the two directories above their leaf.
//!
//! A line such as `data/cat/inst/file.png` places the instance `inst` under
//! the category `cat`. The library turns a sequence of such lines into a
//! [`CategoryMap`]: for every category, the set of distinct instances seen
//! under it.

pub mod aggregate;
pub mod category_map;
pub mod laws;
pub mod path;
pub mod text;

pub use aggregate::{
    calc_categories, calc_categories_from_reads, calc_categories_with, try_calc_categories,
};
pub use aggregate::{MalformedPath, Strictness};
pub use category_map::CategoryMap;
pub use path::split_line;
