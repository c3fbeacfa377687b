//! Building blocks of a modular model checker: bit sets, interval sets,
//! a byte-addressed memory for discrete variables, directed graphs and the
//! descriptions of model variables, clocks and labels.

pub mod computation;
pub mod game;
pub mod io;
pub mod learning;
pub mod models;
pub mod verification;
