//! A small organisational roster: departments, each with its list of people,
//! driven by one-line text commands and stored as a JSON document.

pub mod command;
pub mod company;
pub mod laws;
pub mod people;
pub mod session;
pub mod storage;
pub mod text;
