//! What the parts of the library are for, said apart from how they are defined.
pub mod blocks;
pub mod callbacks;
pub mod declaring;
pub mod definition;
pub mod fitting;
pub mod handling;
pub mod items;
pub mod levels;
pub mod making;
pub mod naming;
pub mod output;
pub mod reading;
pub mod running;
pub mod spelling;
pub mod telling;
pub mod tokens;
pub mod tree;
pub mod writing;
