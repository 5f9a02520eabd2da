//! The computing core of a benchmark that maps the performance of physical
//! memory.
//!
//! A run allocates huge pages, looks up where they lie in physical memory,
//! measures each of them, scores and ranks them, joins adjacent ones into
//! blocks, and recommends a place for a language model. What a run decides and
//! computes on integers and text is here; what it asks of the operating system
//! and the processor, and its floating-point scores, belong to the program
//! around this library.

pub mod args;
pub mod blocks;
pub mod chase;
pub mod config;
pub mod hugepages;
pub mod layout;
pub mod meminfo;
pub mod models;
pub mod order;
pub mod pagemap;
pub mod passes;
pub mod plan;
pub mod preference;
pub mod region;
pub mod report;
pub mod score;
pub mod select;
pub mod text;
