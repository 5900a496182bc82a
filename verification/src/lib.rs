//! Constant-delay enumeration of the matches of a regular spanner.

pub mod accept;
pub mod agree;
pub mod alike;
pub mod automaton;
pub mod bits;
pub mod complete;
pub mod distinct;
pub mod enumerate;
pub mod expected;
pub mod follow;
pub mod glushkov;
pub mod grammar;
pub mod graph;
pub mod indexed_dag;
pub mod jump;
pub mod language;
pub mod layers;
pub mod levelset;
pub mod mapping;
pub mod marked;
pub mod matrix;
pub mod next_level;
pub mod parse;
pub mod position;
pub mod readings;
pub mod product;
pub mod regex;
pub mod runs;
pub mod shape;
pub mod strategy;
pub mod tables;
pub mod text;
pub mod usage;
pub mod walks;
