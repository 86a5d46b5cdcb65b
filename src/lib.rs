//! Small contest-style problems with verified solutions; the centre piece is
//! the product-triple search of [`triple::solve`].

pub mod benchgen;
pub mod chips;
pub mod classrooms;
pub mod collection;
pub mod emeralds;
pub mod presence;
pub mod read_u32;
pub mod right_exp_search;
pub mod sign;
pub mod split_bill;
pub mod stairs;
pub mod sudoku;
pub mod triple;
pub mod vowels;
