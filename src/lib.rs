//! Locates a header row in a grid of text cells by its labels, and projects
//! the rows beneath it onto the matched columns.
pub mod escape;
pub mod grid;
pub mod locate;
pub mod project;
pub mod sheet;
