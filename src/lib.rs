//! A 9×9 Sudoku solver by constraint propagation.
//!
//! [`sudoku`] holds the grid state: the given digits, the candidate values of
//! every open cell, and the count of cells still unresolved. [`algorithms`]
//! holds the deduction engine, which applies elimination, single-empty-cell
//! fills and hidden-single fills over every row, column and box until the grid
//! is complete or a whole sweep changes nothing.
pub mod count;
pub mod sudoku;
pub mod algorithms;
