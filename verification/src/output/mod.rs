//! Output: the decisions that the terminal tables make. Printing is left
//! to the program around the library.

pub mod table;
