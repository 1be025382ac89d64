//! Greedy bouquet assembly.
//!
//! Flowers arrive one at a time. Each arrival is added to the stock of its
//! size class, and the first design of the catalog that the stock can now
//! fill is assembled, trimmed to its exact total and taken out of the stock.

pub mod assembler;
pub mod catalog;
pub mod inventory;
pub mod matching;
pub mod parse;
pub mod render;
pub mod text;
pub mod types;
pub mod workshop;
