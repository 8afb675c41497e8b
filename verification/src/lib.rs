//! CodeType: turns the code of a repository into typing exercises and
//! scores the typing.

pub mod text;
pub mod engine;
pub mod exercise;
pub mod paths;
pub mod command;
pub mod extractor;
pub mod tour;
pub mod clock;
pub mod display;
pub mod stats;
pub mod scanner;
pub mod rows;
pub mod scores;
pub mod calendar;
pub mod screen;
