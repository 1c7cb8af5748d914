pub mod counting;
pub mod matching;
pub mod tables;
pub mod solver;
pub mod assign;
pub mod disjoint;
pub mod grid;
pub mod terrain;
pub mod field;
pub mod reservation;
pub mod navigate;
pub mod search;
pub mod influence;
